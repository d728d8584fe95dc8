//! Decoding one dump line into a typed terrain patch record, and encoding a
//! record back into a line.

use vstd::prelude::*;
use vstd::string::StringSliceAdditionalSpecFns;

use crate::lex::{
    is_digit, is_ws, lemma_dec_mag, lemma_parse_dec_int, lemma_token_end_from, parse_i32_tok,
    parse_u32_tok, parse_u8_tok, parse_usize_tok, push_dec_i32, push_dec_u64, spec_dec_int,
    spec_dec_mag, spec_parse_int, spec_tokens, token_end_from, tokenize, tokens_from,
    IntErrorKind,
};

verus! {

/// Mathematical image of a decoded patch record.
#[verifier::ext_equal]
pub ghost struct EntryView {
    pub page_x: i32,
    pub page_z: i32,
    pub node_x: u8,
    pub node_z: u8,
    pub node_radius: u8,
    pub texture_ids: Seq<u32>,
    pub heights: Seq<i32>,
}

/// Mathematical image of a line decode failure.
pub ghost enum EntryErrView {
    MissingField(Seq<char>),
    ParseIntError(Seq<char>, IntErrorKind),
    InvalidCount(Seq<char>, int, int),
}

/// A failure to decode one dump line.
#[derive(Debug)]
pub enum ElevEntryError {
    /// A token was absent where the named field was expected.
    MissingField(&'static str),
    /// The named field's token was not an integer of the required width.
    ParseIntError(&'static str, IntErrorKind),
    /// Fewer list values were read than the declared count stated.  The
    /// token-reading loops stop only after exactly the declared number of
    /// reads, so this is defensive redundancy, not a reachable outcome.
    InvalidCount(&'static str, usize, usize),
}

impl View for ElevEntryError {
    type V = EntryErrView;

    open spec fn view(&self) -> EntryErrView {
        match self {
            ElevEntryError::MissingField(f) => EntryErrView::MissingField(f@),
            ElevEntryError::ParseIntError(f, k) => EntryErrView::ParseIntError(f@, *k),
            ElevEntryError::InvalidCount(f, e, a) => EntryErrView::InvalidCount(
                f@,
                *e as int,
                *a as int,
            ),
        }
    }
}

/// One decoded dump line: a patch of terrain centered on a node of one page.
#[derive(Debug)]
pub struct ElevEntry {
    pub page_x: i32,
    pub page_z: i32,
    /// Local anchor column, expected in `[0, 127]`.
    pub node_x: u8,
    /// Local anchor row, expected in `[0, 127]`.
    pub node_z: u8,
    pub node_radius: u8,
    pub texture_ids: Vec<u32>,
    pub heights: Vec<i32>,
}

impl View for ElevEntry {
    type V = EntryView;

    open spec fn view(&self) -> EntryView {
        EntryView {
            page_x: self.page_x,
            page_z: self.page_z,
            node_x: self.node_x,
            node_z: self.node_z,
            node_radius: self.node_radius,
            texture_ids: self.texture_ids@,
            heights: self.heights@,
        }
    }
}

/// Reads token `idx` as an `i32` field called `name`.
pub open spec fn spec_field_i32(ts: Seq<Seq<u8>>, idx: int, name: Seq<char>) -> Result<
    i32,
    EntryErrView,
> {
    if idx >= ts.len() {
        Err(EntryErrView::MissingField(name))
    } else {
        match spec_parse_int(ts[idx], i32::MIN as int, i32::MAX as int) {
            Ok(v) => Ok(v as i32),
            Err(k) => Err(EntryErrView::ParseIntError(name, k)),
        }
    }
}

/// Reads token `idx` as a `u8` field called `name`.
pub open spec fn spec_field_u8(ts: Seq<Seq<u8>>, idx: int, name: Seq<char>) -> Result<
    u8,
    EntryErrView,
> {
    if idx >= ts.len() {
        Err(EntryErrView::MissingField(name))
    } else {
        match spec_parse_int(ts[idx], 0, u8::MAX as int) {
            Ok(v) => Ok(v as u8),
            Err(k) => Err(EntryErrView::ParseIntError(name, k)),
        }
    }
}

/// Reads token `idx` as a `u32` field called `name`.
pub open spec fn spec_field_u32(ts: Seq<Seq<u8>>, idx: int, name: Seq<char>) -> Result<
    u32,
    EntryErrView,
> {
    if idx >= ts.len() {
        Err(EntryErrView::MissingField(name))
    } else {
        match spec_parse_int(ts[idx], 0, u32::MAX as int) {
            Ok(v) => Ok(v as u32),
            Err(k) => Err(EntryErrView::ParseIntError(name, k)),
        }
    }
}

/// Reads token `idx` as a `usize` field called `name`.
pub open spec fn spec_field_usize(ts: Seq<Seq<u8>>, idx: int, name: Seq<char>) -> Result<
    usize,
    EntryErrView,
> {
    if idx >= ts.len() {
        Err(EntryErrView::MissingField(name))
    } else {
        match spec_parse_int(ts[idx], 0, usize::MAX as int) {
            Ok(v) => Ok(v as usize),
            Err(k) => Err(EntryErrView::ParseIntError(name, k)),
        }
    }
}

/// Reads `count` texture-id tokens starting at token `start`, stopping at
/// the first failure.
pub open spec fn spec_tex_list(ts: Seq<Seq<u8>>, start: int, count: int) -> Result<
    Seq<u32>,
    EntryErrView,
>
    decreases count,
{
    if count <= 0 {
        Ok(Seq::empty())
    } else {
        match spec_tex_list(ts, start, count - 1) {
            Err(e) => Err(e),
            Ok(pre) => match spec_field_u32(ts, start + count - 1, "texture_id"@) {
                Err(e) => Err(e),
                Ok(v) => Ok(pre.push(v)),
            },
        }
    }
}

/// Reads `count` height tokens starting at token `start`, stopping at the
/// first failure.
pub open spec fn spec_height_list(ts: Seq<Seq<u8>>, start: int, count: int) -> Result<
    Seq<i32>,
    EntryErrView,
>
    decreases count,
{
    if count <= 0 {
        Ok(Seq::empty())
    } else {
        match spec_height_list(ts, start, count - 1) {
            Err(e) => Err(e),
            Ok(pre) => match spec_field_i32(ts, start + count - 1, "height"@) {
                Err(e) => Err(e),
                Ok(v) => Ok(pre.push(v)),
            },
        }
    }
}

/// What decoding a token sequence in the fixed field order yields: the
/// patch record, or the first failure in reading order.
pub open spec fn spec_decode_tokens(ts: Seq<Seq<u8>>) -> Result<EntryView, EntryErrView> {
    match spec_field_i32(ts, 0, "page_x"@) {
        Err(e) => Err(e),
        Ok(page_x) => match spec_field_i32(ts, 1, "page_z"@) {
            Err(e) => Err(e),
            Ok(page_z) => match spec_field_u8(ts, 2, "node_x"@) {
                Err(e) => Err(e),
                Ok(node_x) => match spec_field_u8(ts, 3, "node_z"@) {
                    Err(e) => Err(e),
                    Ok(node_z) => match spec_field_u8(ts, 4, "node_radius"@) {
                        Err(e) => Err(e),
                        Ok(node_radius) => match spec_field_usize(ts, 5, "texture_count"@) {
                            Err(e) => Err(e),
                            Ok(tc) => match spec_field_usize(ts, 6, "height_count"@) {
                                Err(e) => Err(e),
                                Ok(hc) => match spec_tex_list(ts, 7, tc as int) {
                                    Err(e) => Err(e),
                                    Ok(texture_ids) => match spec_height_list(
                                        ts,
                                        7 + tc as int,
                                        hc as int,
                                    ) {
                                        Err(e) => Err(e),
                                        Ok(heights) => Ok(EntryView {
                                            page_x,
                                            page_z,
                                            node_x,
                                            node_z,
                                            node_radius,
                                            texture_ids,
                                            heights,
                                        }),
                                    },
                                },
                            },
                        },
                    },
                },
            },
        },
    }
}

/// What decoding one whole dump line yields.
pub open spec fn spec_decode_line(s: Seq<u8>) -> Result<EntryView, EntryErrView> {
    spec_decode_tokens(spec_tokens(s))
}

/// A texture-id list error at token `start + k` propagates to every longer
/// read of the same list.
proof fn lemma_tex_list_err(ts: Seq<Seq<u8>>, start: int, k: int, c: int, e: EntryErrView)
    requires
        0 <= k < c,
        spec_tex_list(ts, start, k) is Ok,
        spec_field_u32(ts, start + k, "texture_id"@) == Err::<u32, EntryErrView>(e),
    ensures
        spec_tex_list(ts, start, c) == Err::<Seq<u32>, EntryErrView>(e),
    decreases c,
{
    if c > k + 1 {
        lemma_tex_list_err(ts, start, k, c - 1, e);
    }
}

/// A height list error at token `start + k` propagates to every longer read
/// of the same list.
proof fn lemma_height_list_err(ts: Seq<Seq<u8>>, start: int, k: int, c: int, e: EntryErrView)
    requires
        0 <= k < c,
        spec_height_list(ts, start, k) is Ok,
        spec_field_i32(ts, start + k, "height"@) == Err::<i32, EntryErrView>(e),
    ensures
        spec_height_list(ts, start, c) == Err::<Seq<i32>, EntryErrView>(e),
    decreases c,
{
    if c > k + 1 {
        lemma_height_list_err(ts, start, k, c - 1, e);
    }
}

impl ElevEntry {
    /// Decodes one dump line, given as bytes, into a patch record.
    ///
    /// Fields are whitespace-separated decimal tokens in the fixed order
    /// `page_x page_z node_x node_z node_radius texture_count height_count`,
    /// then `texture_count` texture ids and `height_count` heights.  Excess
    /// trailing tokens are ignored.
    #[verifier::loop_isolation(false)]
    pub fn from_line_bytes(bytes: &[u8]) -> (r: Result<ElevEntry, ElevEntryError>)
        ensures
            match r {
                Ok(e) => spec_decode_line(bytes@) == Ok::<EntryView, EntryErrView>(e@),
                Err(e) => spec_decode_line(bytes@) == Err::<EntryView, EntryErrView>(e@),
            },
    {
        let toks = tokenize(bytes);
        let ghost ts = spec_tokens(bytes@);
        proof {
            assert(ts == toks@.map_values(|t: (usize, usize)| bytes@.subrange(
                t.0 as int,
                t.1 as int,
            )));
        }

        if toks.len() < 1 {
            return Err(ElevEntryError::MissingField("page_x"));
        }
        let t = toks[0];
        let page_x = match parse_i32_tok(bytes, t.0, t.1) {
            Ok(v) => v,
            Err(k) => {
                return Err(ElevEntryError::ParseIntError("page_x", k));
            },
        };

        if toks.len() < 2 {
            return Err(ElevEntryError::MissingField("page_z"));
        }
        let t = toks[1];
        let page_z = match parse_i32_tok(bytes, t.0, t.1) {
            Ok(v) => v,
            Err(k) => {
                return Err(ElevEntryError::ParseIntError("page_z", k));
            },
        };

        if toks.len() < 3 {
            return Err(ElevEntryError::MissingField("node_x"));
        }
        let t = toks[2];
        let node_x = match parse_u8_tok(bytes, t.0, t.1) {
            Ok(v) => v,
            Err(k) => {
                return Err(ElevEntryError::ParseIntError("node_x", k));
            },
        };

        if toks.len() < 4 {
            return Err(ElevEntryError::MissingField("node_z"));
        }
        let t = toks[3];
        let node_z = match parse_u8_tok(bytes, t.0, t.1) {
            Ok(v) => v,
            Err(k) => {
                return Err(ElevEntryError::ParseIntError("node_z", k));
            },
        };

        if toks.len() < 5 {
            return Err(ElevEntryError::MissingField("node_radius"));
        }
        let t = toks[4];
        let node_radius = match parse_u8_tok(bytes, t.0, t.1) {
            Ok(v) => v,
            Err(k) => {
                return Err(ElevEntryError::ParseIntError("node_radius", k));
            },
        };

        if toks.len() < 6 {
            return Err(ElevEntryError::MissingField("texture_count"));
        }
        let t = toks[5];
        let texture_count = match parse_usize_tok(bytes, t.0, t.1) {
            Ok(v) => v,
            Err(k) => {
                return Err(ElevEntryError::ParseIntError("texture_count", k));
            },
        };

        if toks.len() < 7 {
            return Err(ElevEntryError::MissingField("height_count"));
        }
        let t = toks[6];
        let height_count = match parse_usize_tok(bytes, t.0, t.1) {
            Ok(v) => v,
            Err(k) => {
                return Err(ElevEntryError::ParseIntError("height_count", k));
            },
        };

        let mut texture_ids: Vec<u32> = Vec::new();
        let mut k: usize = 0;
        while k < texture_count
            invariant
                k <= texture_count,
                texture_ids@.len() == k,
                spec_tex_list(ts, 7, k as int) == Ok::<Seq<u32>, EntryErrView>(texture_ids@),
            decreases texture_count - k,
        {
            if k >= toks.len() - 7 {
                proof {
                    lemma_tex_list_err(
                        ts,
                        7,
                        k as int,
                        texture_count as int,
                        EntryErrView::MissingField("texture_id"@),
                    );
                }
                return Err(ElevEntryError::MissingField("texture_id"));
            }
            let t = toks[7 + k];
            match parse_u32_tok(bytes, t.0, t.1) {
                Ok(v) => {
                    texture_ids.push(v);
                },
                Err(ke) => {
                    proof {
                        lemma_tex_list_err(
                            ts,
                            7,
                            k as int,
                            texture_count as int,
                            EntryErrView::ParseIntError("texture_id"@, ke),
                        );
                    }
                    return Err(ElevEntryError::ParseIntError("texture_id", ke));
                },
            }
            k += 1;
        }

        let base = 7 + texture_count;
        let mut heights: Vec<i32> = Vec::new();
        let mut k: usize = 0;
        while k < height_count
            invariant
                k <= height_count,
                heights@.len() == k,
                spec_height_list(ts, base as int, k as int) == Ok::<Seq<i32>, EntryErrView>(
                    heights@,
                ),
            decreases height_count - k,
        {
            if base >= toks.len() || k >= toks.len() - base {
                proof {
                    lemma_height_list_err(
                        ts,
                        base as int,
                        k as int,
                        height_count as int,
                        EntryErrView::MissingField("height"@),
                    );
                }
                return Err(ElevEntryError::MissingField("height"));
            }
            let t = toks[base + k];
            match parse_i32_tok(bytes, t.0, t.1) {
                Ok(v) => {
                    heights.push(v);
                },
                Err(ke) => {
                    proof {
                        lemma_height_list_err(
                            ts,
                            base as int,
                            k as int,
                            height_count as int,
                            EntryErrView::ParseIntError("height"@, ke),
                        );
                    }
                    return Err(ElevEntryError::ParseIntError("height", ke));
                },
            }
            k += 1;
        }

        if texture_ids.len() != texture_count {
            return Err(ElevEntryError::InvalidCount(
                "texture",
                texture_count,
                texture_ids.len(),
            ));
        }
        if heights.len() != height_count {
            return Err(ElevEntryError::InvalidCount("height", height_count, heights.len()));
        }

        let e = ElevEntry { page_x, page_z, node_x, node_z, node_radius, texture_ids, heights };
        proof {
            let dec = spec_decode_tokens(ts);
            assert(dec is Ok);
            assert(dec->Ok_0 =~= e@);
        }
        Ok(e)
    }

    #[verifier::loop_isolation(false)]
    /// Encodes this record as one dump line, in the same whitespace-separated
    /// field order that [`ElevEntry::from_line`] reads.
    pub fn to_line_bytes(&self) -> (r: Vec<u8>)
        ensures
            r@ == spec_encode_line(self@),
    {
        let ghost parts = spec_encode_tokens(self@);
        let mut out: Vec<u8> = Vec::new();
        push_dec_i32(&mut out, self.page_x);
        proof {
            assert(parts.take(1) =~= seq![spec_dec_int(self.page_x as int)]);
            assert(out@ =~= spec_join_sp(parts.take(1)));
        }
        out.push(0x20);
        push_dec_i32(&mut out, self.page_z);
        proof {
            lemma_join_push(parts.take(1), parts[1]);
            assert(parts.take(2) =~= parts.take(1).push(parts[1]));
            assert(out@ =~= spec_join_sp(parts.take(2)));
        }
        out.push(0x20);
        push_dec_u64(&mut out, self.node_x as u64);
        proof {
            lemma_join_push(parts.take(2), parts[2]);
            assert(parts.take(3) =~= parts.take(2).push(parts[2]));
            assert(out@ =~= spec_join_sp(parts.take(3)));
        }
        out.push(0x20);
        push_dec_u64(&mut out, self.node_z as u64);
        proof {
            lemma_join_push(parts.take(3), parts[3]);
            assert(parts.take(4) =~= parts.take(3).push(parts[3]));
            assert(out@ =~= spec_join_sp(parts.take(4)));
        }
        out.push(0x20);
        push_dec_u64(&mut out, self.node_radius as u64);
        proof {
            lemma_join_push(parts.take(4), parts[4]);
            assert(parts.take(5) =~= parts.take(4).push(parts[4]));
            assert(out@ =~= spec_join_sp(parts.take(5)));
        }
        out.push(0x20);
        push_dec_u64(&mut out, self.texture_ids.len() as u64);
        proof {
            lemma_join_push(parts.take(5), parts[5]);
            assert(parts.take(6) =~= parts.take(5).push(parts[5]));
            assert(out@ =~= spec_join_sp(parts.take(6)));
        }
        out.push(0x20);
        push_dec_u64(&mut out, self.heights.len() as u64);
        proof {
            lemma_join_push(parts.take(6), parts[6]);
            assert(parts.take(7) =~= parts.take(6).push(parts[6]));
            assert(out@ =~= spec_join_sp(parts.take(7)));
        }
        let mut k: usize = 0;
        while k < self.texture_ids.len()
            invariant
                k <= self.texture_ids.len(),
                out@ == spec_join_sp(parts.take(7 + k as int)),
            decreases self.texture_ids.len() - k,
        {
            out.push(0x20);
            push_dec_u64(&mut out, self.texture_ids[k] as u64);
            proof {
                assert(parts[7 + k as int] == spec_dec_mag(self.texture_ids@[k as int] as int));
                lemma_join_push(parts.take(7 + k as int), parts[7 + k as int]);
                assert(parts.take(7 + k as int + 1) =~= parts.take(7 + k as int).push(
                    parts[7 + k as int]));
                assert(out@ =~= spec_join_sp(parts.take(7 + k as int + 1)));
            }
            k += 1;
        }
        let ghost gbase = 7 + self.texture_ids@.len() as int;
        let mut k: usize = 0;
        while k < self.heights.len()
            invariant
                k <= self.heights.len(),
                out@ == spec_join_sp(parts.take(gbase + k as int)),
            decreases self.heights.len() - k,
        {
            out.push(0x20);
            push_dec_i32(&mut out, self.heights[k]);
            proof {
                assert(parts[gbase + k as int] == spec_dec_int(self.heights@[k as int] as int));
                lemma_join_push(parts.take(gbase + k as int), parts[gbase + k as int]);
                assert(parts.take(gbase + k as int + 1) =~= parts.take(gbase + k as int).push(
                    parts[gbase + k as int]));
                assert(out@ =~= spec_join_sp(parts.take(gbase + k as int + 1)));
            }
            k += 1;
        }
        proof {
            assert(parts.take(parts.len() as int) =~= parts);
        }
        out
    }

    /// Decodes one dump line into a patch record.
    pub fn from_line(line: &str) -> (r: Result<ElevEntry, ElevEntryError>)
        ensures
            match r {
                Ok(e) => spec_decode_line(line.spec_bytes()) == Ok::<EntryView, EntryErrView>(
                    e@,
                ),
                Err(e) => spec_decode_line(line.spec_bytes()) == Err::<EntryView, EntryErrView>(
                    e@,
                ),
            },
    {
        Self::from_line_bytes(line.as_bytes())
    }
}


/// The encoded token for each field of a record, in line order.
pub open spec fn spec_encode_tokens(e: EntryView) -> Seq<Seq<u8>> {
    seq![
        spec_dec_int(e.page_x as int),
        spec_dec_int(e.page_z as int),
        spec_dec_mag(e.node_x as int),
        spec_dec_mag(e.node_z as int),
        spec_dec_mag(e.node_radius as int),
        spec_dec_mag(e.texture_ids.len() as int),
        spec_dec_mag(e.heights.len() as int),
    ] + e.texture_ids.map_values(|t: u32| spec_dec_mag(t as int)) + e.heights.map_values(
        |h: i32| spec_dec_int(h as int),
    )
}

/// Tokens joined by single spaces.
pub open spec fn spec_join_sp(parts: Seq<Seq<u8>>) -> Seq<u8>
    decreases parts.len(),
{
    if parts.len() == 0 {
        Seq::empty()
    } else if parts.len() == 1 {
        parts[0]
    } else {
        parts[0] + seq![0x20u8] + spec_join_sp(parts.drop_first())
    }
}

/// The dump line that a record encodes to.
pub open spec fn spec_encode_line(e: EntryView) -> Seq<u8> {
    spec_join_sp(spec_encode_tokens(e))
}

/// Joining one more token appends a space and the token.
proof fn lemma_join_push(q: Seq<Seq<u8>>, p: Seq<u8>)
    ensures
        spec_join_sp(q.push(p)) == if q.len() == 0 {
            p
        } else {
            spec_join_sp(q) + seq![0x20u8] + p
        },
    decreases q.len(),
{
    if q.len() == 0 {
        assert(q.push(p).len() == 1);
        assert(q.push(p)[0] == p);
        assert(spec_join_sp(q.push(p)) == p);
    } else if q.len() == 1 {
        assert(q.push(p)[0] == q[0]);
        assert(q.push(p).drop_first() =~= seq![p]);
        assert(seq![p].len() == 1);
        assert(spec_join_sp(seq![p]) == seq![p][0]);
        assert(seq![p][0] == p);
        assert(spec_join_sp(q) == q[0]);
        assert(spec_join_sp(q.push(p)) == q.push(p)[0] + seq![0x20u8] + spec_join_sp(
            q.push(p).drop_first()));
    } else {
        lemma_join_push(q.drop_first(), p);
        assert(q.push(p).drop_first() =~= q.drop_first().push(p));
        assert(q.push(p)[0] == q[0]);
        assert(q[0] + seq![0x20u8] + (spec_join_sp(q.drop_first()) + seq![0x20u8] + p) =~= (q[0]
            + seq![0x20u8] + spec_join_sp(q.drop_first())) + seq![0x20u8] + p);
    }
}

/// A token run ends exactly where the first whitespace byte stands.
proof fn lemma_token_end_run(s: Seq<u8>, i: int, k: int)
    requires
        0 <= i <= k <= s.len(),
        forall|m: int| i <= m < k ==> !is_ws(s[m]),
        k == s.len() || is_ws(s[k]),
    ensures
        token_end_from(s, i) == k,
    decreases k - i,
{
    if i < k {
        lemma_token_end_run(s, i + 1, k);
    }
}

/// Ending a token scan inside a suffix matches scanning the suffix alone.
proof fn lemma_token_end_suffix(s: Seq<u8>, m: int, i: int)
    requires
        0 <= m <= i <= s.len(),
    ensures
        token_end_from(s, i) == m + token_end_from(s.subrange(m, s.len() as int), i - m),
    decreases s.len() - i,
{
    let s2 = s.subrange(m, s.len() as int);
    if i < s.len() {
        assert(s2[i - m] == s[i]);
        if !is_ws(s[i]) {
            lemma_token_end_suffix(s, m, i + 1);
        }
    }
}

/// Tokenizing from a position inside a suffix matches tokenizing the
/// suffix alone.
proof fn lemma_tokens_suffix(s: Seq<u8>, m: int, i: int)
    requires
        0 <= m <= i <= s.len(),
    ensures
        tokens_from(s, i) == tokens_from(s.subrange(m, s.len() as int), i - m),
    decreases s.len() - i,
{
    let s2 = s.subrange(m, s.len() as int);
    if i < s.len() {
        assert(s2[i - m] == s[i]);
        if is_ws(s[i]) {
            lemma_tokens_suffix(s, m, i + 1);
        } else {
            lemma_token_end_suffix(s, m, i);
            lemma_token_end_from(s, i);
            let k = token_end_from(s, i);
            lemma_tokens_suffix(s, m, k);
            assert(s.subrange(i, k) =~= s2.subrange(i - m, k - m));
        }
    }
}

/// Splitting a space-joined sequence of nonempty, whitespace-free tokens
/// recovers exactly those tokens.
proof fn lemma_tokens_join(parts: Seq<Seq<u8>>)
    requires
        forall|j: int| 0 <= j < parts.len() ==> (#[trigger] parts[j]).len() >= 1,
        forall|j: int, b: int| 0 <= j < parts.len() && 0 <= b < parts[j].len()
            ==> !is_ws(#[trigger] parts[j][b]),
    ensures
        spec_tokens(spec_join_sp(parts)) == parts,
    decreases parts.len(),
{
    if parts.len() == 0 {
    } else {
        let s = spec_join_sp(parts);
        let p = parts[0];
        if parts.len() == 1 {
            assert(s == p);
            assert(!is_ws(s[0]));
            lemma_token_end_run(s, 0, p.len() as int);
            assert(s.subrange(0, p.len() as int) =~= p);
            assert(tokens_from(s, p.len() as int) =~= Seq::<Seq<u8>>::empty());
            assert(spec_tokens(s) =~= parts);
        } else {
            let rest = parts.drop_first();
            let tail = spec_join_sp(rest);
            assert(s == p + seq![0x20u8] + tail);
            assert forall|m: int| 0 <= m < p.len() implies !is_ws(s[m]) by {
                assert(s[m] == p[m]);
            };
            assert(s[p.len() as int] == 0x20);
            lemma_token_end_run(s, 0, p.len() as int);
            assert(!is_ws(s[0]));
            assert(s.subrange(0, p.len() as int) =~= p);
            lemma_tokens_suffix(s, p.len() as int + 1, p.len() as int + 1);
            assert(s.subrange(p.len() as int + 1, s.len() as int) =~= tail);
            lemma_tokens_join(rest);
            assert(tokens_from(s, p.len() as int) == tokens_from(s, p.len() as int + 1));
            assert(spec_tokens(s) =~= seq![p] + rest);
            assert(seq![p] + rest =~= parts);
        }
    }
}

/// The signed numeral of any value is a nonempty, whitespace-free token.
proof fn lemma_dec_int_token(v: int)
    ensures
        spec_dec_int(v).len() >= 1,
        forall|b: int| 0 <= b < spec_dec_int(v).len() ==> !is_ws(#[trigger] spec_dec_int(v)[b]),
{
    let t = spec_dec_int(v);
    if v < 0 {
        lemma_dec_mag(-v);
        assert forall|b: int| 0 <= b < t.len() implies !is_ws(t[b]) by {
            if b > 0 {
                assert(is_digit(spec_dec_mag(-v)[b - 1]));
            }
        };
    } else {
        lemma_dec_mag(v);
        assert forall|b: int| 0 <= b < t.len() implies !is_ws(t[b]) by {
            assert(is_digit(spec_dec_mag(v)[b]));
        };
    }
}

/// Reading back `n` encoded texture ids yields exactly those ids.
proof fn lemma_tex_list_round(e: EntryView, n: int)
    requires
        0 <= n <= e.texture_ids.len(),
        e.texture_ids.len() + 7 <= usize::MAX,
        e.heights.len() <= usize::MAX,
    ensures
        spec_tex_list(spec_encode_tokens(e), 7, n) == Ok::<Seq<u32>, EntryErrView>(
            e.texture_ids.take(n),
        ),
    decreases n,
{
    let parts = spec_encode_tokens(e);
    if n > 0 {
        lemma_tex_list_round(e, n - 1);
        let v = e.texture_ids[n - 1];
        assert(parts[7 + n - 1] == spec_dec_mag(v as int));
        lemma_parse_dec_int(v as int, 0, u32::MAX as int);
        assert(e.texture_ids.take(n - 1).push(v) =~= e.texture_ids.take(n));
    } else {
        assert(e.texture_ids.take(0) =~= Seq::<u32>::empty());
    }
}

/// Reading back `n` encoded heights yields exactly those heights.
proof fn lemma_height_list_round(e: EntryView, n: int)
    requires
        0 <= n <= e.heights.len(),
        e.texture_ids.len() + 7 <= usize::MAX,
        e.heights.len() <= usize::MAX,
    ensures
        spec_height_list(
            spec_encode_tokens(e),
            7 + e.texture_ids.len() as int,
            n,
        ) == Ok::<Seq<i32>, EntryErrView>(e.heights.take(n)),
    decreases n,
{
    let parts = spec_encode_tokens(e);
    let base = 7 + e.texture_ids.len() as int;
    if n > 0 {
        lemma_height_list_round(e, n - 1);
        let v = e.heights[n - 1];
        assert(parts[base + n - 1] == spec_dec_int(v as int));
        lemma_parse_dec_int(v as int, i32::MIN as int, i32::MAX as int);
        assert(e.heights.take(n - 1).push(v) =~= e.heights.take(n));
    } else {
        assert(e.heights.take(0) =~= Seq::<i32>::empty());
    }
}

/// Round trip: decoding the line that a record encodes to reproduces the
/// record exactly, field for field.  The list lengths are bounded as every
/// in-memory record's are, so that the declared counts stay readable.
pub proof fn lemma_entry_round_trip(e: EntryView)
    requires
        e.texture_ids.len() + 7 <= usize::MAX,
        e.heights.len() <= usize::MAX,
    ensures
        spec_decode_line(spec_encode_line(e)) == Ok::<EntryView, EntryErrView>(e),
{
    let parts = spec_encode_tokens(e);
    let ntex = e.texture_ids.len() as int;
    let nh = e.heights.len() as int;
    assert(parts.len() == 7 + ntex + nh);
    assert forall|j: int| 0 <= j < parts.len() implies (#[trigger] parts[j]).len() >= 1 by {
        lemma_part_token(e, j);
    };
    assert forall|j: int, b: int|
        0 <= j < parts.len() && 0 <= b < parts[j].len() implies !is_ws(
        #[trigger] parts[j][b]) by {
        lemma_part_token(e, j);
    };
    lemma_tokens_join(parts);

    lemma_parse_dec_int(e.page_x as int, i32::MIN as int, i32::MAX as int);
    lemma_parse_dec_int(e.page_z as int, i32::MIN as int, i32::MAX as int);
    lemma_parse_dec_int(e.node_x as int, 0, u8::MAX as int);
    lemma_parse_dec_int(e.node_z as int, 0, u8::MAX as int);
    lemma_parse_dec_int(e.node_radius as int, 0, u8::MAX as int);
    lemma_parse_dec_int(ntex, 0, usize::MAX as int);
    lemma_parse_dec_int(nh, 0, usize::MAX as int);
    lemma_tex_list_round(e, ntex);
    lemma_height_list_round(e, nh);
    assert(e.texture_ids.take(ntex) =~= e.texture_ids);
    assert(e.heights.take(nh) =~= e.heights);
    let dec = spec_decode_tokens(parts);
    assert(dec is Ok);
    assert(dec->Ok_0 =~= e);
}

/// Every encoded field token is nonempty and free of whitespace.
proof fn lemma_part_token(e: EntryView, j: int)
    requires
        0 <= j < spec_encode_tokens(e).len(),
    ensures
        spec_encode_tokens(e)[j].len() >= 1,
        forall|b: int| 0 <= b < spec_encode_tokens(e)[j].len() ==> !is_ws(
            #[trigger] spec_encode_tokens(e)[j][b]),
{
    let parts = spec_encode_tokens(e);
    let ntex = e.texture_ids.len() as int;
    if j == 0 {
        lemma_dec_int_token(e.page_x as int);
    } else if j == 1 {
        lemma_dec_int_token(e.page_z as int);
    } else if j == 2 {
        lemma_dec_int_token(e.node_x as int);
        assert(parts[j] == spec_dec_int(e.node_x as int));
    } else if j == 3 {
        lemma_dec_int_token(e.node_z as int);
        assert(parts[j] == spec_dec_int(e.node_z as int));
    } else if j == 4 {
        lemma_dec_int_token(e.node_radius as int);
        assert(parts[j] == spec_dec_int(e.node_radius as int));
    } else if j == 5 {
        lemma_dec_int_token(ntex);
        assert(parts[j] == spec_dec_int(ntex));
    } else if j == 6 {
        lemma_dec_int_token(e.heights.len() as int);
        assert(parts[j] == spec_dec_int(e.heights.len() as int));
    } else if j < 7 + ntex {
        lemma_dec_int_token(e.texture_ids[j - 7] as int);
        assert(parts[j] == spec_dec_int(e.texture_ids[j - 7] as int));
    } else {
        lemma_dec_int_token(e.heights[j - 7 - ntex] as int);
        assert(parts[j] == spec_dec_int(e.heights[j - 7 - ntex] as int));
    }
}

} // verus!

