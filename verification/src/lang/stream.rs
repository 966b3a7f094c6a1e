use vstd::prelude::*;

use super::ast::PrimitivesTypes;
use super::context::{KnownFunctions, ParserContext};
use super::text::{char_width, lemma_utf8_len_concat, str_chars, utf8_len};

verus! {

/// The text being parsed, held as its characters, together with the byte offset of each
/// character, the text that errors report as the whole input, and the known functions
/// when calls are to be checked.
pub struct Stream<'a> {
    chars: Vec<char>,
    offsets: Vec<usize>,
    origin: String,
    known: Option<&'a KnownFunctions>,
}

impl<'a> View for Stream<'a> {
    type V = Seq<char>;

    closed spec fn view(&self) -> Seq<char> {
        self.chars@
    }
}

impl<'a> Stream<'a> {
    #[verifier::type_invariant]
    closed spec fn wf(self) -> bool {
        &&& self.offsets@.len() == self.chars@.len() + 1
        &&& forall|i: int|
            0 <= i <= self.chars@.len() ==> #[trigger] self.offsets@[i] == utf8_len(
                self.chars@.take(i),
            )
    }

    /// The text that errors report as the whole input.
    pub closed spec fn origin(&self) -> Seq<char> {
        self.origin@
    }

    /// The functions that calls are checked against, if any.
    pub closed spec fn known(&self) -> Option<Map<Seq<char>, Seq<PrimitivesTypes>>> {
        match self.known {
            Some(t) => Some(t@),
            None => None,
        }
    }

    /// Wraps `input` for parsing with no check of calls; errors report `input` as the
    /// whole input.
    pub fn new(input: &str) -> (s: Stream<'a>)
        ensures
            s@ == input@,
            s.origin() == input@,
            s.known() is None,
    {
        Stream::build(input, input, None)
    }

    /// Wraps `input` for parsing in the context `ctx`: calls must name a known function
    /// with arguments of its declared kinds, and errors report the context's original
    /// input as the whole input.
    pub fn with_context(input: &str, ctx: &'a ParserContext) -> (s: Stream<'a>)
        ensures
            s@ == input@,
            s.origin() == ctx.original_input@,
            s.known() == Some(ctx.known_functions@),
    {
        Stream::build(input, ctx.original_input.as_str(), Some(&ctx.known_functions))
    }

    /// The functions that calls are checked against, if any.
    pub fn known_functions(&self) -> (r: Option<&'a KnownFunctions>)
        ensures
            match r {
                Some(t) => self.known() == Some(t@),
                None => self.known() is None,
            },
    {
        self.known
    }

    fn build(input: &str, origin: &str, known: Option<&'a KnownFunctions>) -> (s: Stream<'a>)
        ensures
            s@ == input@,
            s.origin() == origin@,
            s.known() == match known {
                Some(t) => Some(t@),
                None => None::<Map<Seq<char>, Seq<PrimitivesTypes>>>,
            },
    {
        let chars = str_chars(input);
        let total = input.as_bytes().len();
        assert(total == utf8_len(chars@));
        let mut offsets: Vec<usize> = Vec::new();
        offsets.push(0);
        assert(chars@.take(0) =~= Seq::<char>::empty());
        let mut i: usize = 0;
        while i < chars.len()
            invariant
                i <= chars@.len(),
                total == utf8_len(chars@),
                offsets@.len() == i + 1,
                forall|k: int| 0 <= k <= i ==> #[trigger] offsets@[k] == utf8_len(chars@.take(k)),
            decreases chars.len() - i,
        {
            let w = char_width(chars[i]);
            proof {
                assert(chars@.take(i + 1) =~= chars@.take(i as int) + seq![chars@[i as int]]);
                lemma_utf8_len_concat(chars@.take(i as int), seq![chars@[i as int]]);
                assert(chars@ =~= chars@.take(i + 1) + chars@.skip(i + 1));
                lemma_utf8_len_concat(chars@.take(i + 1), chars@.skip(i + 1));
            }
            let next = offsets[i] + w;
            offsets.push(next);
            i = i + 1;
        }
        Stream { chars, offsets, origin: origin.to_owned(), known }
    }

    /// The number of characters of the text.
    pub fn len(&self) -> (n: usize)
        ensures
            n == self@.len(),
    {
        self.chars.len()
    }

    /// The character at position `i`.
    pub fn char_at(&self, i: usize) -> (c: char)
        requires
            i < self@.len(),
        ensures
            c == self@[i as int],
    {
        self.chars[i]
    }

    /// The number of bytes of the UTF-8 encoding of the text from position `pos` on.
    pub fn bytes_from(&self, pos: usize) -> (n: usize)
        requires
            pos <= self@.len(),
        ensures
            n == utf8_len(self@.subrange(pos as int, self@.len() as int)),
    {
        proof {
            use_type_invariant(self);
            let s = self.chars@;
            assert(s.take(s.len() as int) =~= s);
            assert(s =~= s.take(pos as int) + s.subrange(pos as int, s.len() as int));
            lemma_utf8_len_concat(s.take(pos as int), s.subrange(pos as int, s.len() as int));
        }
        self.offsets[self.chars.len()] - self.offsets[pos]
    }

    /// A copy of the text that errors report as the whole input.
    pub fn origin_text(&self) -> (t: String)
        ensures
            t@ == self.origin(),
    {
        self.origin.clone()
    }

    /// The characters from `from` up to `to`, as a string.
    pub fn slice(&self, from: usize, to: usize) -> (t: String)
        requires
            from <= to <= self@.len(),
        ensures
            t@ == self@.subrange(from as int, to as int),
    {
        let mut t = String::new();
        let mut i = from;
        while i < to
            invariant
                from <= i <= to <= self@.len(),
                t@ == self@.subrange(from as int, i as int),
            decreases to - i,
        {
            t.push(self.chars[i]);
            i = i + 1;
            assert(t@ == self@.subrange(from as int, i as int));
        }
        t
    }
}

} // verus!
