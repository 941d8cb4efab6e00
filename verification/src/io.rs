use std::str::FromStr;
use vstd::prelude::*;

verus! {

/// `b` is an ASCII whitespace byte: space, tab, line feed, form feed or carriage return.
pub open spec fn is_space(b: u8) -> bool {
    b == 0x20 || b == 0x09 || b == 0x0a || b == 0x0c || b == 0x0d
}

/// The first position at or after `i` whose byte `keep` rejects, or the end of `s`.
pub open spec fn skip_while(s: Seq<u8>, i: int, keep: spec_fn(u8) -> bool) -> int
    decreases s.len() - i,
{
    if i < 0 || i >= s.len() || !keep(s[i]) {
        if i < 0 { 0 } else if i > s.len() { s.len() as int } else { i }
    } else {
        skip_while(s, i + 1, keep)
    }
}

/// Where the next token of `s` after position `i` starts: past the whitespace.
pub open spec fn token_start(s: Seq<u8>, i: int) -> int {
    skip_while(s, i, |b: u8| is_space(b))
}

/// The first position at or after `i` that holds whitespace, or the end of `s`.
pub open spec fn word_end(s: Seq<u8>, i: int) -> int {
    skip_while(s, i, |b: u8| !is_space(b))
}

/// Where the next token of `s` after position `i` ends: at the whitespace after it.
pub open spec fn token_end(s: Seq<u8>, i: int) -> int {
    word_end(s, token_start(s, i))
}

pub proof fn lemma_skip_while(s: Seq<u8>, i: int, keep: spec_fn(u8) -> bool)
    requires
        0 <= i <= s.len(),
    ensures
        i <= skip_while(s, i, keep) <= s.len(),
        forall|k: int| i <= k < skip_while(s, i, keep) ==> keep(#[trigger] s[k]),
        skip_while(s, i, keep) < s.len() ==> !keep(s[skip_while(s, i, keep)]),
    decreases s.len() - i,
{
    if i < s.len() && keep(s[i]) {
        lemma_skip_while(s, i + 1, keep);
    }
}

/// Every byte is below 128.
pub open spec fn is_ascii(s: Seq<u8>) -> bool {
    forall|i: int| 0 <= i < s.len() ==> #[trigger] s[i] < 128
}

/// The characters with the codes of the bytes.
pub open spec fn ascii_chars(s: Seq<u8>) -> Seq<char> {
    s.map_values(|b: u8| b as char)
}

/// Reads whitespace-separated tokens from bytes held in memory.
pub struct Scanner {
    input: Vec<u8>,
    index: usize,
}

/// The byte is ASCII whitespace.
fn byte_is_space(b: u8) -> (r: bool)
    ensures
        r == is_space(b),
{
    b == 0x20 || b == 0x09 || b == 0x0a || b == 0x0c || b == 0x0d
}

/// The text that `bytes` encode in UTF-8, if they are valid UTF-8.
///
/// Calls `std::str::from_utf8`. Stated: ASCII bytes are valid UTF-8 and give the
/// characters of the same codes. Not stated: what other bytes give.
#[verifier::external_body]
fn utf8_text(bytes: &[u8]) -> (r: Option<&str>)
    ensures
        is_ascii(bytes@) ==> r is Some,
        is_ascii(bytes@) ==> r.unwrap()@ == ascii_chars(bytes@),
{
    std::str::from_utf8(bytes).ok()
}

/// The value that `text` spells, for a type that can be parsed from text.
///
/// Calls `str::parse`, which runs `T::from_str`. Not stated: what that gives, which
/// depends on the type.
#[verifier::external_body]
fn parse_text<T: FromStr>(text: &str) -> (r: Option<T>) {
    text.parse().ok()
}

impl Scanner {
    /// The bytes being read.
    pub closed spec fn spec_input(&self) -> Seq<u8> {
        self.input@
    }

    /// How many bytes have been read.
    pub closed spec fn spec_index(&self) -> nat {
        self.index as nat
    }

    #[verifier::type_invariant]
    spec fn inv(&self) -> bool {
        self.index <= self.input@.len()
    }

    pub fn new(input: Vec<u8>) -> (r: Self)
        ensures
            r.spec_input() == input@,
            r.spec_index() == 0,
    {
        Scanner { input, index: 0 }
    }

    /// Skips the whitespace and then the token after it, and says where the token lies.
    fn next_token(&mut self) -> (r: (usize, usize))
        ensures
            final(self).spec_input() == old(self).spec_input(),
            r.0 == token_start(old(self).spec_input(), old(self).spec_index() as int),
            r.1 == token_end(old(self).spec_input(), old(self).spec_index() as int),
            final(self).spec_index() == r.1,
            r.0 <= r.1 <= old(self).spec_input().len(),
    {
        proof {
            use_type_invariant(&*self);
        }
        let ghost s = self.input@;
        let ghost i0 = self.index as int;
        let len = self.input.len();
        let mut i = self.index;
        while i < len && byte_is_space(self.input[i])
            invariant
                s == self.input@,
                len == s.len(),
                i0 <= i <= len,
                token_start(s, i as int) == token_start(s, i0),
            decreases len - i,
        {
            i = i + 1;
        }
        let start = i;
        proof {
            assert(token_start(s, i as int) == i);
        }
        while i < len && !byte_is_space(self.input[i])
            invariant
                s == self.input@,
                len == s.len(),
                start <= i <= len,
                word_end(s, i as int) == word_end(s, start as int),
            decreases len - i,
        {
            i = i + 1;
        }
        proof {
            assert(word_end(s, i as int) == i);
        }
        self.index = i;
        (start, i)
    }

    /// Reads the next whitespace-separated token and returns its bytes; empty when no token
    /// is left.
    pub fn token(&mut self) -> (r: Vec<u8>)
        ensures
            final(self).spec_input() == old(self).spec_input(),
            final(self).spec_index() == token_end(old(self).spec_input(), old(self).spec_index() as int),
            r@ == old(self).spec_input().subrange(
                token_start(old(self).spec_input(), old(self).spec_index() as int),
                token_end(old(self).spec_input(), old(self).spec_index() as int),
            ),
    {
        let (start, end) = self.next_token();
        let mut r: Vec<u8> = Vec::new();
        let mut i = start;
        while i < end
            invariant
                start <= i <= end <= self.input@.len(),
                r@ == self.input@.subrange(start as int, i as int),
            decreases end - i,
        {
            r.push(self.input[i]);
            i = i + 1;
        }
        r
    }

    /// Reads the next whitespace-separated token and parses it as a `T`; `None` when there
    /// is no token left or it does not parse.
    pub fn read<T: FromStr>(&mut self) -> (r: Option<T>)
        ensures
            final(self).spec_input() == old(self).spec_input(),
            final(self).spec_index() == token_end(old(self).spec_input(), old(self).spec_index() as int),
    {
        let (start, end) = self.next_token();
        let token = slice_range(&self.input, start, end);
        match utf8_text(token) {
            Some(text) => parse_text(text),
            None => None,
        }
    }
}

/// The bytes of `v` from `start` up to `end`.
fn slice_range(v: &Vec<u8>, start: usize, end: usize) -> (r: &[u8])
    requires
        start <= end <= v@.len(),
    ensures
        r@ == v@.subrange(start as int, end as int),
{
    vstd::slice::slice_subrange(v.as_slice(), start, end)
}

} // verus!
