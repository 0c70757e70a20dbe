//! Text handling: comparing texts, the std string operations that the
//! library calls, and the splitting and trimming of comma-separated lists.
use vstd::prelude::*;

verus! {

/// Whether both texts hold the same characters.
pub(crate) fn str_equal(a: &str, b: &str) -> (r: bool)
    ensures
        r == (a@ == b@),
{
    let n = a.unicode_len();
    if n != b.unicode_len() {
        return false;
    }
    let mut i: usize = 0;
    while i < n
        invariant
            n == a@.len(),
            n == b@.len(),
            i <= n,
            forall|j: int| 0 <= j < i ==> a@[j] == b@[j],
        decreases n - i,
    {
        if a.get_char(i) != b.get_char(i) {
            return false;
        }
        i = i + 1;
    }
    assert(a@ =~= b@);
    true
}

/// Whether `s` begins with `prefix`.
pub(crate) fn starts_with(s: &str, prefix: &str) -> (r: bool)
    ensures
        r == (prefix@.len() <= s@.len() && s@.subrange(0, prefix@.len() as int) == prefix@),
{
    let n = prefix.unicode_len();
    if n > s.unicode_len() {
        return false;
    }
    let mut i: usize = 0;
    while i < n
        invariant
            n == prefix@.len(),
            n <= s@.len(),
            i <= n,
            forall|j: int| 0 <= j < i ==> s@[j] == prefix@[j],
        decreases n - i,
    {
        if s.get_char(i) != prefix.get_char(i) {
            assert(s@.subrange(0, n as int)[i as int] != prefix@[i as int]);
            return false;
        }
        i = i + 1;
    }
    assert(s@.subrange(0, n as int) =~= prefix@);
    true
}

/// `String::push`: appends the character.
#[verifier::external_body]
pub(crate) fn push_char(s: &mut String, c: char)
    ensures
        final(s)@ == old(s)@.push(c),
{
    s.push(c)
}

/// Characters with the Unicode White_Space property (those that
/// `char::is_whitespace` accepts).
pub open spec fn is_whitespace(c: char) -> bool {
    let u = c as u32;
    ||| 9 <= u <= 13
    ||| u == 32
    ||| u == 0x85
    ||| u == 0xA0
    ||| u == 0x1680
    ||| 0x2000 <= u <= 0x200A
    ||| u == 0x2028
    ||| u == 0x2029
    ||| u == 0x202F
    ||| u == 0x205F
    ||| u == 0x3000
}

/// The text without its leading whitespace.
pub open spec fn trim_start(s: Seq<char>) -> Seq<char>
    decreases s.len(),
{
    if s.len() > 0 && is_whitespace(s[0]) {
        trim_start(s.drop_first())
    } else {
        s
    }
}

/// The text without its trailing whitespace.
pub open spec fn trim_end(s: Seq<char>) -> Seq<char>
    decreases s.len(),
{
    if s.len() > 0 && is_whitespace(s.last()) {
        trim_end(s.drop_last())
    } else {
        s
    }
}

/// The text without leading and trailing whitespace.
pub open spec fn trimmed(s: Seq<char>) -> Seq<char> {
    trim_end(trim_start(s))
}

/// `str::trim`: the text without leading and trailing whitespace
/// (whitespace as in the Unicode White_Space property).
#[verifier::external_body]
pub(crate) fn trim(s: &str) -> (r: &str)
    ensures
        r@ == trimmed(s@),
{
    s.trim()
}

/// The pieces of the text between commas, in order (an empty text is one
/// empty piece; every comma starts a new piece).
pub open spec fn split_commas(s: Seq<char>) -> Seq<Seq<char>>
    decreases s.len(),
{
    if s.len() == 0 {
        seq![Seq::empty()]
    } else {
        let before = split_commas(s.drop_last());
        if s.last() == ',' {
            before.push(Seq::empty())
        } else {
            before.update(before.len() - 1, before.last().push(s.last()))
        }
    }
}

proof fn lemma_split_commas_nonempty(s: Seq<char>)
    ensures
        split_commas(s).len() >= 1,
    decreases s.len(),
{
    if s.len() > 0 {
        lemma_split_commas_nonempty(s.drop_last());
    }
}

/// Split the text on commas.
pub fn split_on_commas(s: &str) -> (pieces: Vec<String>)
    ensures
        pieces@.len() == split_commas(s@).len(),
        forall|i: int| 0 <= i < pieces@.len() ==> #[trigger] pieces@[i]@ == split_commas(s@)[i],
{
    let n = s.unicode_len();
    let mut pieces: Vec<String> = Vec::new();
    let mut current = String::new();
    let mut i: usize = 0;
    while i < n
        invariant
            n == s@.len(),
            i <= n,
            pieces@.len() + 1 == split_commas(s@.take(i as int)).len(),
            forall|j: int| 0 <= j < pieces@.len() ==> #[trigger] pieces@[j]@ == split_commas(s@.take(i as int))[j],
            current@ == split_commas(s@.take(i as int)).last(),
        decreases n - i,
    {
        let c = s.get_char(i);
        let ghost before = split_commas(s@.take(i as int));
        proof {
            assert(s@.take(i + 1).drop_last() =~= s@.take(i as int));
            assert(s@.take(i + 1).last() == c);
            lemma_split_commas_nonempty(s@.take(i as int));
        }
        if c == ',' {
            let done = current;
            pieces.push(done);
            current = String::new();
            proof {
                let after = split_commas(s@.take(i + 1));
                assert(after == before.push(Seq::empty()));
                assert forall|j: int| 0 <= j < pieces@.len() implies #[trigger] pieces@[j]@ == after[j] by {
                    if j < pieces@.len() - 1 {
                    } else {
                        assert(after[j] == before[before.len() - 1]);
                    }
                }
            }
        } else {
            push_char(&mut current, c);
        }
        i = i + 1;
    }
    pieces.push(current);
    proof {
        assert(s@.take(n as int) =~= s@);
        lemma_split_commas_nonempty(s@);
        assert forall|j: int| 0 <= j < pieces@.len() implies #[trigger] pieces@[j]@ == split_commas(s@)[j] by {}
    }
    pieces
}

} // verus!
