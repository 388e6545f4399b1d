//! Source text as characters with the byte offset of each, and facts about
//! UTF-8 offsets.
use vstd::prelude::*;
use vstd::utf8::*;
use vstd::std_specs::iter::IteratorSpec;
use vstd::string::StrSliceExecFns;

verus! {

broadcast use vstd::string::group_string_axioms;

/// Number of bytes that `c` takes in UTF-8.
pub open spec fn utf8_width(c: char) -> nat {
    encode_scalar(c as u32).len()
}

/// Byte offset, in the UTF-8 encoding of `s`, of the character at index `i`.
pub open spec fn byte_pos(s: Seq<char>, i: int) -> nat {
    encode_utf8(s.take(i)).len()
}

/// UTF-8 encoding distributes over concatenation.
pub proof fn lemma_encode_concat(a: Seq<char>, b: Seq<char>)
    ensures
        encode_utf8(a + b) == encode_utf8(a) + encode_utf8(b),
    decreases a.len(),
{
    if a.len() == 0 {
        assert(a + b =~= b);
        assert(encode_utf8(a) + encode_utf8(b) =~= encode_utf8(b));
    } else {
        assert((a + b).drop_first() =~= a.drop_first() + b);
        lemma_encode_concat(a.drop_first(), b);
        assert((a + b)[0] == a[0]);
        assert(encode_utf8(a + b) =~= encode_utf8(a) + encode_utf8(b));
    }
}

/// The encoding of a single character.
pub proof fn lemma_encode_single(c: char)
    ensures
        encode_utf8(seq![c]) == encode_scalar(c as u32),
{
    assert(seq![c].drop_first() =~= Seq::<char>::empty());
    assert(encode_utf8(Seq::<char>::empty()) =~= Seq::<u8>::empty());
    assert(encode_utf8(seq![c]) == encode_scalar(c as u32) + encode_utf8(seq![c].drop_first()));
    assert(encode_scalar(c as u32) + Seq::<u8>::empty() =~= encode_scalar(c as u32));
}

/// Moving over one character moves the byte offset by its width.
pub proof fn lemma_byte_pos_step(s: Seq<char>, i: int)
    requires
        0 <= i < s.len(),
    ensures
        byte_pos(s, i + 1) == byte_pos(s, i) + utf8_width(s[i]),
{
    assert(s.take(i + 1) =~= s.take(i) + seq![s[i]]);
    lemma_encode_concat(s.take(i), seq![s[i]]);
    lemma_encode_single(s[i]);
}

/// Byte offsets grow with the character index.
pub proof fn lemma_byte_pos_mono(s: Seq<char>, i: int, j: int)
    requires
        0 <= i <= j <= s.len(),
    ensures
        byte_pos(s, i) <= byte_pos(s, j),
    decreases j - i,
{
    if i < j {
        lemma_byte_pos_step(s, j - 1);
        lemma_byte_pos_mono(s, i, j - 1);
    }
}

/// The bytes of `s` between the offsets of characters `i` and `j` are the
/// encoding of those characters.
pub proof fn lemma_byte_slice(s: Seq<char>, i: int, j: int)
    requires
        0 <= i <= j <= s.len(),
    ensures
        byte_pos(s, i) <= byte_pos(s, j) <= encode_utf8(s).len(),
        encode_utf8(s).subrange(byte_pos(s, i) as int, byte_pos(s, j) as int) == encode_utf8(
            s.subrange(i, j),
        ),
{
    assert(s =~= s.take(i) + s.subrange(i, j) + s.skip(j));
    assert(s.take(j) =~= s.take(i) + s.subrange(i, j));
    lemma_encode_concat(s.take(i), s.subrange(i, j));
    lemma_encode_concat(s.take(i) + s.subrange(i, j), s.skip(j));
    let e = encode_utf8(s);
    assert(e.subrange(byte_pos(s, i) as int, byte_pos(s, j) as int) =~= encode_utf8(
        s.subrange(i, j),
    ));
}

/// Whether the characters of `w` stand in `s` from index `i` on.
pub open spec fn has_word(s: Seq<char>, i: int, w: Seq<char>) -> bool {
    &&& 0 <= i
    &&& i + w.len() <= s.len()
    &&& s.subrange(i, i + w.len()) == w
}

/// Byte offsets strictly grow with the character index.
pub proof fn lemma_byte_pos_strict(s: Seq<char>, i: int, j: int)
    requires
        0 <= i < j <= s.len(),
    ensures
        byte_pos(s, i) < byte_pos(s, j),
{
    lemma_byte_pos_step(s, j - 1);
    lemma_byte_pos_mono(s, i, j - 1);
}

/// The byte offset of every character index is a character boundary of the
/// encoding.
pub proof fn lemma_byte_pos_boundary(s: Seq<char>, i: int)
    requires
        0 <= i <= s.len(),
    ensures
        is_char_boundary(encode_utf8(s), byte_pos(s, i) as int),
    decreases s.len(),
{
    encode_utf8_valid_utf8(s);
    if i == 0 {
        assert(s.take(0) =~= Seq::<char>::empty());
        assert(encode_utf8(Seq::<char>::empty()) =~= Seq::<u8>::empty());
    } else {
        let b = encode_utf8(s);
        encode_utf8_first_scalar(s);
        assert(pop_first_scalar(b) =~= encode_utf8(s.drop_first()));
        lemma_byte_pos_boundary(s.drop_first(), i - 1);
        assert(s.take(i) =~= seq![s[0]] + s.drop_first().take(i - 1));
        lemma_encode_concat(seq![s[0]], s.drop_first().take(i - 1));
        lemma_encode_single(s[0]);
        lemma_byte_slice(s, 0, i);
    }
}

/// Number of UTF-8 bytes of `c`.
fn width_of(c: char) -> (w: usize)
    ensures
        w == utf8_width(c),
{
    let v = c as u32;
    proof {
        char_is_scalar(c);
    }
    if v <= 0x7F {
        1
    } else if v <= 0x7FF {
        2
    } else if v <= 0xFFFF {
        3
    } else {
        4
    }
}

/// Source text held as its characters, with the byte offset of each of them,
/// and a position among the characters.
pub struct Cursor {
    chars: Vec<char>,
    offsets: Vec<usize>,
    pos: usize,
}

impl Cursor {
    /// The characters of the source.
    pub closed spec fn text(&self) -> Seq<char> {
        self.chars@
    }

    /// The index of the current character.
    pub closed spec fn index(&self) -> int {
        self.pos as int
    }

    pub closed spec fn wf(&self) -> bool {
        &&& self.offsets@.len() == self.chars@.len() + 1
        &&& forall|i: int|
            0 <= i <= self.chars@.len() ==> #[trigger] self.offsets@[i] == byte_pos(
                self.chars@,
                i,
            )
        &&& self.pos <= self.chars@.len()
    }

    /// A cursor at the start of `src`.
    pub fn new(src: &str) -> (r: Cursor)
        ensures
            r.wf(),
            r.text() == src@,
            r.index() == 0,
    {
        let total = src.as_bytes().len();
        let ghost s = src@;
        proof {
            lemma_byte_pos_mono(s, 0, s.len() as int);
            assert(s.take(s.len() as int) =~= s);
        }
        let mut chars: Vec<char> = Vec::new();
        let mut offsets: Vec<usize> = Vec::new();
        let mut off: usize = 0;
        offsets.push(0);
        proof {
            assert(s.take(0) =~= Seq::<char>::empty());
        }
        let mut it = src.chars();
        loop
            invariant
                chars@ =~= s.take(chars@.len() as int),
                chars@.len() <= s.len(),
                it.remaining() == s.skip(chars@.len() as int),
                off == byte_pos(s, chars@.len() as int),
                offsets@.len() == chars@.len() + 1,
                forall|i: int| 0 <= i <= chars@.len() ==> #[trigger] offsets@[i] == byte_pos(s, i),
                byte_pos(s, s.len() as int) == total,
            ensures
                chars@ == s,
                offsets@.len() == chars@.len() + 1,
                forall|i: int| 0 <= i <= chars@.len() ==> #[trigger] offsets@[i] == byte_pos(s, i),
            decreases s.len() - chars@.len(),
        {
            match it.next() {
                Some(c) => {
                    proof {
                        lemma_byte_pos_step(s, chars@.len() as int);
                        lemma_byte_pos_mono(s, chars@.len() + 1int, s.len() as int);
                    }
                    chars.push(c);
                    off = off + width_of(c);
                    offsets.push(off);
                },
                None => {
                    break ;
                },
            }
        }
        Cursor { chars, offsets, pos: 0 }
    }

    /// Number of characters of the source.
    pub fn len(&self) -> (r: usize)
        ensures
            r == self.text().len(),
    {
        self.chars.len()
    }

    /// Index of the current character.
    pub fn pos(&self) -> (r: usize)
        ensures
            r == self.index(),
    {
        self.pos
    }

    /// The character at index `i`.
    pub fn char_at(&self, i: usize) -> (r: char)
        requires
            i < self.text().len(),
        ensures
            r == self.text()[i as int],
    {
        self.chars[i]
    }

    /// The byte offset of the character at index `i`; for the length of the
    /// text, the number of bytes of the whole text.
    pub fn offset(&self, i: usize) -> (r: usize)
        requires
            self.wf(),
            i <= self.text().len(),
        ensures
            r == byte_pos(self.text(), i as int),
    {
        self.offsets[i]
    }

    /// Moves to the character at index `i`.
    pub fn set_pos(&mut self, i: usize)
        requires
            old(self).wf(),
            i <= old(self).text().len(),
        ensures
            final(self).wf(),
            final(self).text() == old(self).text(),
            final(self).index() == i,
    {
        self.pos = i;
    }

    /// Whether the characters of `w` stand in the text from index `i` on.
    pub fn has_word(&self, i: usize, w: &str) -> (r: bool)
        requires
            i <= self.text().len(),
        ensures
            r == has_word(self.text(), i as int, w@),
    {
        let m = w.unicode_len();
        let n = self.chars.len();
        if m > n - i {
            return false;
        }
        let mut k: usize = 0;
        while k < m
            invariant
                m == w@.len(),
                n == self.chars@.len(),
                i + m <= n,
                k <= m,
                forall|t: int| 0 <= t < k ==> self.chars@[i + t] == w@[t],
            decreases m - k,
        {
            if self.chars[i + k] != w.get_char(k) {
                assert(self.chars@.subrange(i as int, i + m)[k as int] != w@[k as int]);
                return false;
            }
            k = k + 1;
        }
        assert(self.chars@.subrange(i as int, i + m) =~= w@);
        true
    }
}

} // verus!
