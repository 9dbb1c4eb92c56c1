//! Full-text primitives: tokenization with lower-case folding, the term-id
//! hash, a plural-stripping stemmer, and the per-document positional term
//! index with phrase matching.

use vstd::prelude::*;

verus! {

use vstd::string::StringSliceAdditionalSpecFns;

/// Longest token kept by the tokenizer; longer runs are discarded.
pub const MAX_TOKEN_LENGTH: usize = 25;

/// Letters and digits form tokens; everything else separates them.
pub open spec fn spec_is_word_byte(b: u8) -> bool {
    (48 <= b <= 57) || (65 <= b <= 90) || (97 <= b <= 122)
}

/// ASCII lower-case folding.
pub open spec fn spec_lower_byte(b: u8) -> u8 {
    if 65 <= b <= 90 {
        (b + 32) as u8
    } else {
        b
    }
}

/// Tokens of `bytes` from position `i` with `cur` gathered so far: maximal
/// runs of letters and digits, lower-cased, kept when between one and
/// `MAX_TOKEN_LENGTH` bytes long.
pub open spec fn spec_tokens_from(bytes: Seq<u8>, i: int, cur: Seq<u8>) -> Seq<Seq<u8>>
    decreases bytes.len() - i,
{
    if i < 0 || i >= bytes.len() {
        if 1 <= cur.len() <= MAX_TOKEN_LENGTH {
            seq![cur]
        } else {
            Seq::<Seq<u8>>::empty()
        }
    } else if spec_is_word_byte(bytes[i]) {
        spec_tokens_from(bytes, i + 1, cur.push(spec_lower_byte(bytes[i])))
    } else {
        if 1 <= cur.len() <= MAX_TOKEN_LENGTH {
            seq![cur] + spec_tokens_from(bytes, i + 1, Seq::<u8>::empty())
        } else {
            spec_tokens_from(bytes, i + 1, Seq::<u8>::empty())
        }
    }
}

/// The tokens of a byte sequence.
pub open spec fn spec_tokens(bytes: Seq<u8>) -> Seq<Seq<u8>> {
    spec_tokens_from(bytes, 0, Seq::<u8>::empty())
}

/// Split text into lower-cased tokens.
#[verifier::loop_isolation(false)]
pub fn tokenize(text: &str) -> (r: Vec<Vec<u8>>)
    ensures
        r@.map_values(|t: Vec<u8>| t@) == spec_tokens(text.spec_bytes()),
{
    let bytes = text.as_bytes();
    let n = bytes.len();
    let mut out: Vec<Vec<u8>> = Vec::new();
    let mut cur: Vec<u8> = Vec::new();
    let mut i: usize = 0;
    while i < n
        invariant
            i <= n,
            cur@.len() <= i,
            spec_tokens(bytes@) == out@.map_values(|t: Vec<u8>| t@) + spec_tokens_from(
                bytes@,
                i as int,
                cur@,
            ),
        decreases n - i,
    {
        let b = bytes[i];
        if (48 <= b && b <= 57) || (65 <= b && b <= 90) || (97 <= b && b <= 122) {
            let lb = if 65 <= b && b <= 90 {
                b + 32
            } else {
                b
            };
            cur.push(lb);
        } else {
            if cur.len() >= 1 && cur.len() <= MAX_TOKEN_LENGTH {
                let ghost before = out@;
                out.push(cur);
                proof {
                    assert(out@.map_values(|t: Vec<u8>| t@) =~= before.map_values(|t: Vec<u8>| t@)
                        + seq![cur@]);
                }
            }
            cur = Vec::new();
        }
        i = i + 1;
    }
    if cur.len() >= 1 && cur.len() <= MAX_TOKEN_LENGTH {
        let ghost before = out@;
        out.push(cur);
        proof {
            assert(out@.map_values(|t: Vec<u8>| t@) =~= before.map_values(|t: Vec<u8>| t@) + seq![
                cur@,
            ]);
        }
    }
    assert(out@.map_values(|t: Vec<u8>| t@) =~= spec_tokens(bytes@));
    out
}

/// FNV-1a over a token's bytes: the term id.
pub open spec fn spec_term_hash(bytes: Seq<u8>) -> u64
    decreases bytes.len(),
{
    if bytes.len() == 0 {
        0xcbf2_9ce4_8422_2325u64
    } else {
        (spec_term_hash(bytes.drop_last()) ^ (bytes.last() as u64)).wrapping_mul(
            0x100_0000_01b3u64,
        )
    }
}

/// Term id of a token.
#[verifier::loop_isolation(false)]
pub fn term_hash(bytes: &Vec<u8>) -> (r: u64)
    ensures
        r == spec_term_hash(bytes@),
{
    let n = bytes.len();
    let mut h: u64 = 0xcbf2_9ce4_8422_2325;
    let mut i: usize = 0;
    while i < n
        invariant
            i <= n,
            h == spec_term_hash(bytes@.take(i as int)),
        decreases n - i,
    {
        h = (h ^ (bytes[i] as u64)).wrapping_mul(0x100_0000_01b3);
        proof {
            assert(bytes@.take(i + 1).drop_last() =~= bytes@.take(i as int));
        }
        i = i + 1;
    }
    assert(bytes@.take(n as int) =~= bytes@);
    h
}

/// The stemmed spelling of a token: a trailing `s` is stripped from words
/// of four or more letters; anything else stems to itself.
pub open spec fn spec_stem(token: Seq<u8>) -> Seq<u8> {
    if token.len() >= 4 && token.last() == 115 {
        token.drop_last()
    } else {
        token
    }
}

pub fn stem(token: &Vec<u8>) -> (r: Vec<u8>)
    ensures
        r@ == spec_stem(token@),
{
    let n = token.len();
    if n >= 4 && token[n - 1] == 115 {
        let mut out: Vec<u8> = Vec::new();
        let mut i: usize = 0;
        while i < n - 1
            invariant
                i <= n - 1,
                n == token@.len(),
                out@ == token@.take(i as int),
            decreases n - 1 - i,
        {
            out.push(token[i]);
            assert(out@ =~= token@.take(i + 1));
            i = i + 1;
        }
        assert(out@ =~= token@.drop_last());
        out
    } else {
        let mut out: Vec<u8> = Vec::new();
        let mut i: usize = 0;
        while i < n
            invariant
                i <= n,
                n == token@.len(),
                out@ == token@.take(i as int),
            decreases n - i,
        {
            out.push(token[i]);
            assert(out@ =~= token@.take(i + 1));
            i = i + 1;
        }
        assert(out@ =~= token@);
        out
    }
}

/// One position of one term within one field of a document.
#[derive(Debug, Clone, Copy, PartialEq, Eq, Structural)]
pub struct TermPosition {
    pub field: u8,
    pub term: u64,
    pub position: u32,
}

/// The positional term index of one document.
#[derive(Debug, Clone, PartialEq, Eq)]
pub struct TermIndex {
    pub entries: Vec<TermPosition>,
}

impl TermIndex {
    pub fn new() -> (r: Self)
        ensures
            r.entries@ == Seq::<TermPosition>::empty(),
    {
        TermIndex { entries: Vec::new() }
    }

    pub fn is_empty(&self) -> (r: bool)
        ensures
            r == (self.entries@.len() == 0),
    {
        self.entries.len() == 0
    }

    pub fn push(&mut self, field: u8, term: u64, position: u32)
        ensures
            final(self).entries@ == old(self).entries@.push(
                TermPosition { field, term, position },
            ),
    {
        self.entries.push(TermPosition { field, term, position });
    }
}

/// Whether the term index places the whole phrase consecutively within one
/// field, starting with `terms[0]` at some position `p`.
pub open spec fn spec_phrase_at(
    entries: Seq<TermPosition>,
    terms: Seq<u64>,
    field: u8,
    start: u32,
) -> bool {
    forall|j: int|
        0 <= j < terms.len() ==> exists|e: int|
            0 <= e < entries.len() && (#[trigger] entries[e]) == (TermPosition {
                field,
                term: #[trigger] terms[j],
                position: (start + j) as u32,
            })
}

/// Whether the phrase occurs anywhere in the index.
pub open spec fn spec_phrase_match(entries: Seq<TermPosition>, terms: Seq<u64>) -> bool {
    exists|field: u8, start: u32| #[trigger]
        spec_phrase_at(entries, terms, field, start) && start + terms.len() <= u32::MAX
}

impl TermIndex {
    /// Whether the given phrase terms occur at consecutive positions within
    /// one field of this document.
    #[verifier::loop_isolation(false)]
    pub fn match_phrase(&self, terms: &Vec<u64>) -> (r: bool)
        requires
            terms@.len() >= 1,
            terms@.len() <= u32::MAX,
        ensures
            r == spec_phrase_match(self.entries@, terms@),
    {
        let n = self.entries.len();
        let m = terms.len();
        let mut i: usize = 0;
        while i < n
            invariant
                i <= n,
                forall|e: int, field: u8, start: u32|
                    0 <= e < i && self.entries@[e] == (TermPosition {
                        field,
                        term: terms@[0],
                        position: start,
                    }) && start + terms@.len() <= u32::MAX ==> !spec_phrase_at(
                        self.entries@,
                        terms@,
                        field,
                        start,
                    ),
            decreases n - i,
        {
            let anchor = self.entries[i];
            if anchor.term == terms[0] && (anchor.position as u64) + (m as u64) <= u32::MAX as u64 {
                let field = anchor.field;
                let start = anchor.position;
                let mut ok = true;
                let mut j: usize = 0;
                while j < m
                    invariant
                        j <= m,
                        ok ==> forall|q: int|
                            0 <= q < j ==> exists|e: int|
                                0 <= e < self.entries@.len() && (#[trigger] self.entries@[e]) == (
                                TermPosition { field, term: #[trigger] terms@[q], position: (start
                                    + q) as u32 }),
                        !ok ==> !spec_phrase_at(self.entries@, terms@, field, start),
                    decreases m - j,
                {
                    if ok {
                        let want_term = terms[j];
                        let want_pos = start + (j as u32);
                        let found = self.find_term_at(field, want_term, want_pos);
                        if !found {
                            assert(!spec_phrase_at(self.entries@, terms@, field, start));
                            ok = false;
                        }
                    }
                    j = j + 1;
                }
                if ok {
                    assert(spec_phrase_at(self.entries@, terms@, field, start));
                    assert(spec_phrase_match(self.entries@, terms@));
                    return true;
                }
            }
            proof {
                if anchor.term == terms@[0] && !((anchor.position as u64) + (m as u64)
                    <= u32::MAX as u64) {
                    assert(forall|field: u8, start: u32|
                        self.entries@[i as int] == (TermPosition {
                            field,
                            term: terms@[0],
                            position: start,
                        }) ==> !(start + terms@.len() <= u32::MAX));
                }
            }
            i = i + 1;
        }
        proof {
            if spec_phrase_match(self.entries@, terms@) {
                let (field, start) = choose|field: u8, start: u32| #[trigger]
                    spec_phrase_at(self.entries@, terms@, field, start) && start + terms@.len()
                        <= u32::MAX;
                assert(exists|e: int|
                    0 <= e < self.entries@.len() && self.entries@[e] == (TermPosition {
                        field,
                        term: terms@[0],
                        position: (start + 0) as u32,
                    }));
                let e = choose|e: int|
                    0 <= e < self.entries@.len() && self.entries@[e] == (TermPosition {
                        field,
                        term: terms@[0],
                        position: (start + 0) as u32,
                    });
                assert((start + 0) as u32 == start);
                assert(!spec_phrase_at(self.entries@, terms@, field, start));
            }
        }
        false
    }

    /// Whether some entry holds `(field, term, position)`.
    #[verifier::loop_isolation(false)]
    fn find_term_at(&self, field: u8, term: u64, position: u32) -> (r: bool)
        ensures
            r == exists|e: int|
                0 <= e < self.entries@.len() && self.entries@[e] == (TermPosition {
                    field,
                    term,
                    position,
                }),
    {
        let n = self.entries.len();
        let mut i: usize = 0;
        while i < n
            invariant
                i <= n,
                forall|e: int|
                    0 <= e < i ==> self.entries@[e] != (TermPosition { field, term, position }),
            decreases n - i,
        {
            let e = self.entries[i];
            if e.field == field && e.term == term && e.position == position {
                return true;
            }
            i = i + 1;
        }
        false
    }
}

} // verus!
