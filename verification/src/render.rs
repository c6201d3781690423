//! The substitution engine: deciding each occurrence from its response and
//! reassembling the document.
//!
//! The output is built from the original body and the recorded occurrence
//! positions alone: every span between occurrences is copied byte for byte,
//! and at each occurrence either the trimmed response or the original
//! literal is spliced in. Substituted text is never searched again.

use vstd::prelude::*;

use crate::scan::is_placeholder;
use crate::scan::occs_view;
use crate::scan::occurrences_wf;
use crate::scan::scan;
use crate::scan::scan_from;
use crate::scan::lemma_scan_from_wf;
use crate::scan::Occurrence;

verus! {

/// ASCII whitespace, as a line read from the operator may carry it.
pub open spec fn is_space(b: u8) -> bool {
    b == 32 || 9 <= b <= 13
}

/// `s` without its leading whitespace.
pub open spec fn trim_front(s: Seq<u8>) -> Seq<u8>
    decreases s.len(),
{
    if s.len() > 0 && is_space(s[0]) {
        trim_front(s.drop_first())
    } else {
        s
    }
}

/// `s` without its trailing whitespace.
pub open spec fn trim_back(s: Seq<u8>) -> Seq<u8>
    decreases s.len(),
{
    if s.len() > 0 && is_space(s[s.len() - 1]) {
        trim_back(s.drop_last())
    } else {
        s
    }
}

/// The response with leading and trailing ASCII whitespace removed.
pub open spec fn trim_spec(s: Seq<u8>) -> Seq<u8> {
    trim_back(trim_front(s))
}

/// The decision for one occurrence: keep the original bracketed literal, or
/// replace it with the given text.
#[derive(Debug, PartialEq, Eq)]
pub enum Resolution {
    Keep,
    Replacement(Vec<u8>),
}

impl View for Resolution {
    type V = Option<Seq<u8>>;

    open spec fn view(&self) -> Option<Seq<u8>> {
        match self {
            Resolution::Keep => None,
            Resolution::Replacement(t) => Some(t@),
        }
    }
}

/// The decisions of a list of resolutions.
pub open spec fn resolutions_view(rs: Seq<Resolution>) -> Seq<Option<Seq<u8>>> {
    rs.map_values(|r: Resolution| r@)
}

/// The bytes of one raw response, `None` standing for a failed read.
pub open spec fn response_view(r: Option<Vec<u8>>) -> Option<Seq<u8>> {
    match r {
        Some(line) => Some(line@),
        None => None,
    }
}

/// The bytes of a list of raw responses.
pub open spec fn responses_view(rs: Seq<Option<Vec<u8>>>) -> Seq<Option<Seq<u8>>> {
    rs.map_values(|r: Option<Vec<u8>>| response_view(r))
}

/// The decision one raw response stands for: a failed read keeps the
/// literal, as does a response that trims to nothing; anything else replaces
/// the literal with the trimmed text.
pub open spec fn resolution_of(response: Option<Seq<u8>>) -> Option<Seq<u8>> {
    match response {
        None => None,
        Some(line) => if trim_spec(line).len() == 0 {
            None
        } else {
            Some(trim_spec(line))
        },
    }
}

/// The text an occurrence contributes to the output: the replacement, or the
/// original literal when the occurrence is kept.
pub open spec fn resolved_text(s: Seq<u8>, occ: (int, int), r: Option<Seq<u8>>) -> Seq<u8> {
    match r {
        Some(t) => t,
        None => s.subrange(occ.0, occ.1),
    }
}

/// The output from position `pos` on: the untouched text up to the next
/// occurrence, that occurrence's resolved text, and so on; after the last
/// occurrence, the rest of the body unchanged.
pub open spec fn assemble(
    s: Seq<u8>,
    pos: int,
    occs: Seq<(int, int)>,
    rs: Seq<Option<Seq<u8>>>,
) -> Seq<u8>
    decreases occs.len(),
{
    if occs.len() == 0 {
        s.subrange(pos, s.len() as int)
    } else {
        s.subrange(pos, occs[0].0) + resolved_text(s, occs[0], rs[0]) + assemble(
            s,
            occs[0].1,
            occs.drop_first(),
            rs.drop_first(),
        )
    }
}

/// The decision each response of a list stands for.
pub open spec fn decisions_of(responses: Seq<Option<Seq<u8>>>) -> Seq<Option<Seq<u8>>> {
    responses.map_values(|r: Option<Seq<u8>>| resolution_of(r))
}

/// The fully rendered document for `s`, given one raw response per
/// occurrence of the single scan of `s`.
pub open spec fn rendered(s: Seq<u8>, responses: Seq<Option<Seq<u8>>>) -> Seq<u8> {
    assemble(s, 0, scan_from(s, 0), decisions_of(responses))
}

/// The part of the output contributed by a prefix of the occurrences: the
/// untouched text before each occurrence followed by its resolved text,
/// without the tail that follows the last of them.
pub open spec fn assemble_before(
    s: Seq<u8>,
    pos: int,
    occs: Seq<(int, int)>,
    rs: Seq<Option<Seq<u8>>>,
) -> Seq<u8>
    decreases occs.len(),
{
    if occs.len() == 0 {
        Seq::empty()
    } else {
        s.subrange(pos, occs[0].0) + resolved_text(s, occs[0], rs[0]) + assemble_before(
            s,
            occs[0].1,
            occs.drop_first(),
            rs.drop_first(),
        )
    }
}

/// The output splits at any occurrence `k`: what the earlier occurrences
/// contribute, the untouched span before occurrence `k`, its resolved text,
/// and the output for the rest of the body.
pub proof fn lemma_assemble_split(
    s: Seq<u8>,
    pos: int,
    occs: Seq<(int, int)>,
    rs: Seq<Option<Seq<u8>>>,
    k: int,
)
    requires
        0 <= k < occs.len(),
        rs.len() == occs.len(),
    ensures
        assemble(s, pos, occs, rs) == assemble_before(s, pos, occs.take(k), rs.take(k))
            + s.subrange(
            if k == 0 {
                pos
            } else {
                occs[k - 1].1
            },
            occs[k].0,
        ) + resolved_text(s, occs[k], rs[k]) + assemble(
            s,
            occs[k].1,
            occs.skip(k + 1),
            rs.skip(k + 1),
        ),
    decreases k,
{
    let a = s.subrange(pos, occs[0].0);
    let b = resolved_text(s, occs[0], rs[0]);
    if k == 0 {
        assert(occs.take(0) =~= Seq::<(int, int)>::empty());
        assert(rs.take(0) =~= Seq::<Option<Seq<u8>>>::empty());
        assert(occs.skip(1) =~= occs.drop_first());
        assert(rs.skip(1) =~= rs.drop_first());
        let c = assemble(s, occs[0].1, occs.skip(1), rs.skip(1));
        assert(assemble(s, pos, occs, rs) == a + b + c);
        assert(assemble_before(s, pos, occs.take(0), rs.take(0)) == Seq::<u8>::empty());
        assert(Seq::<u8>::empty() + a + b + c =~= a + b + c);
    } else {
        let o0 = occs[0];
        let ot = occs.drop_first();
        let rt = rs.drop_first();
        lemma_assemble_split(s, o0.1, ot, rt, k - 1);
        assert(ot[k - 1] == occs[k]);
        assert(rt[k - 1] == rs[k]);
        assert(ot.skip(k) =~= occs.skip(k + 1));
        assert(rt.skip(k) =~= rs.skip(k + 1));
        assert(occs.take(k)[0] == occs[0]);
        assert(rs.take(k)[0] == rs[0]);
        assert(occs.take(k).drop_first() =~= ot.take(k - 1));
        assert(rs.take(k).drop_first() =~= rt.take(k - 1));
        if k - 1 > 0 {
            assert(ot[k - 2] == occs[k - 1]);
        }
        let ab = assemble_before(s, o0.1, ot.take(k - 1), rt.take(k - 1));
        let g = s.subrange(occs[k - 1].1, occs[k].0);
        let res = resolved_text(s, occs[k], rs[k]);
        let tail = assemble(s, occs[k].1, occs.skip(k + 1), rs.skip(k + 1));
        assert(assemble(s, pos, occs, rs) == a + b + assemble(s, o0.1, ot, rt));
        assert(assemble(s, o0.1, ot, rt) == ab + g + res + tail);
        assert(assemble_before(s, pos, occs.take(k), rs.take(k)) == a + b + ab);
        assert(a + b + (ab + g + res + tail) =~= a + b + ab + g + res + tail);
    }
}

/// A body with no placeholder occurrence renders to itself, whatever the
/// responses: no prompt is owed, and writing the result reproduces the
/// template byte for byte.
pub proof fn lemma_render_without_placeholders(s: Seq<u8>, responses: Seq<Option<Seq<u8>>>)
    requires
        scan_from(s, 0).len() == 0,
    ensures
        rendered(s, responses) == s,
{
    assert(rendered(s, responses) == s.subrange(0, s.len() as int));
    assert(s.subrange(0, s.len() as int) =~= s);
}

proof fn lemma_assemble_all_keep(
    s: Seq<u8>,
    pos: int,
    occs: Seq<(int, int)>,
    rs: Seq<Option<Seq<u8>>>,
)
    requires
        occurrences_wf(s, occs),
        rs.len() == occs.len(),
        0 <= pos <= s.len(),
        occs.len() > 0 ==> pos <= occs[0].0,
        forall|i: int| 0 <= i < rs.len() ==> (#[trigger] rs[i]) is None,
    ensures
        assemble(s, pos, occs, rs) == s.subrange(pos, s.len() as int),
    decreases occs.len(),
{
    if occs.len() > 0 {
        let ot = occs.drop_first();
        let rt = rs.drop_first();
        assert(is_placeholder(s, occs[0].0, occs[0].1));
        assert forall|i: int|
            0 <= i < ot.len() implies is_placeholder(s, (#[trigger] ot[i]).0, ot[i].1) by {
            assert(ot[i] == occs[i + 1]);
            assert(is_placeholder(s, occs[i + 1].0, occs[i + 1].1));
        }
        assert forall|i: int| 0 <= i < ot.len() - 1 implies (#[trigger] ot[i]).1 <= ot[i + 1].0 by {
            assert(ot[i] == occs[i + 1]);
            assert(ot[i + 1] == occs[i + 2]);
            assert(occs[i + 1].1 <= occs[i + 2].0);
        }
        assert forall|i: int| 0 <= i < rt.len() implies (#[trigger] rt[i]) is None by {
            assert(rt[i] == rs[i + 1]);
        }
        if ot.len() > 0 {
            assert(occs[0].1 <= occs[1].0);
            assert(ot[0] == occs[1]);
        }
        lemma_assemble_all_keep(s, occs[0].1, ot, rt);
        assert(rs[0] is None);
        assert(resolved_text(s, occs[0], rs[0]) == s.subrange(occs[0].0, occs[0].1));
        assert(s.subrange(pos, occs[0].0) + s.subrange(occs[0].0, occs[0].1) + s.subrange(
            occs[0].1,
            s.len() as int,
        ) =~= s.subrange(pos, s.len() as int));
    }
}

/// When every response keeps its occurrence — a failed read, or a response
/// of nothing but whitespace — the body renders to itself unchanged.
pub proof fn lemma_render_all_kept(s: Seq<u8>, responses: Seq<Option<Seq<u8>>>)
    requires
        responses.len() == scan_from(s, 0).len(),
        forall|i: int|
            0 <= i < responses.len() ==> resolution_of(#[trigger] responses[i]) is None,
    ensures
        rendered(s, responses) == s,
{
    lemma_scan_from_wf(s, 0);
    let ds = decisions_of(responses);
    assert forall|i: int| 0 <= i < ds.len() implies (#[trigger] ds[i]) is None by {
        assert(ds[i] == resolution_of(responses[i]));
    }
    if scan_from(s, 0).len() > 0 {
        assert(is_placeholder(s, scan_from(s, 0)[0].0, scan_from(s, 0)[0].1));
    }
    lemma_assemble_all_keep(s, 0, scan_from(s, 0), ds);
    assert(s.subrange(0, s.len() as int) =~= s);
}

/// A replacement is inserted verbatim: the rendered document is exactly the
/// output for the earlier occurrences, the untouched span before occurrence
/// `k`, the resolved text of occurrence `k` itself, and the output for the
/// rest — so text inside a response is never treated as a new placeholder
/// within the same render.
pub proof fn lemma_response_inserted_verbatim(s: Seq<u8>, responses: Seq<Option<Seq<u8>>>, k: int)
    requires
        responses.len() == scan_from(s, 0).len(),
        0 <= k < responses.len(),
    ensures
        rendered(s, responses) == assemble_before(
            s,
            0,
            scan_from(s, 0).take(k),
            decisions_of(responses).take(k),
        ) + s.subrange(
            if k == 0 {
                0int
            } else {
                scan_from(s, 0)[k - 1].1
            },
            scan_from(s, 0)[k].0,
        ) + resolved_text(s, scan_from(s, 0)[k], resolution_of(responses[k])) + assemble(
            s,
            scan_from(s, 0)[k].1,
            scan_from(s, 0).skip(k + 1),
            decisions_of(responses).skip(k + 1),
        ),
{
    lemma_assemble_split(s, 0, scan_from(s, 0), decisions_of(responses), k);
    assert(decisions_of(responses)[k] == resolution_of(responses[k]));
}

/// Two occurrences of one body — even two with the same literal text — are
/// resolved independently: each replacement lands at its own occurrence's
/// original position, in left-to-right order.
pub proof fn lemma_two_replacements_independent(
    s: Seq<u8>,
    responses: Seq<Option<Seq<u8>>>,
    t0: Seq<u8>,
    t1: Seq<u8>,
)
    requires
        scan_from(s, 0).len() == 2,
        responses.len() == 2,
        resolution_of(responses[0]) == Some(t0),
        resolution_of(responses[1]) == Some(t1),
    ensures
        rendered(s, responses) == s.subrange(0, scan_from(s, 0)[0].0) + t0 + s.subrange(
            scan_from(s, 0)[0].1,
            scan_from(s, 0)[1].0,
        ) + t1 + s.subrange(scan_from(s, 0)[1].1, s.len() as int),
{
    let occs = scan_from(s, 0);
    let ds = decisions_of(responses);
    assert(ds[0] == resolution_of(responses[0]));
    assert(ds[1] == resolution_of(responses[1]));
    let ot = occs.drop_first();
    let dt = ds.drop_first();
    assert(ot.len() == 1);
    assert(ot[0] == occs[1]);
    assert(dt[0] == ds[1]);
    assert(ot.drop_first().len() == 0);
    let a = s.subrange(0, occs[0].0);
    let m = s.subrange(occs[0].1, occs[1].0);
    let z = s.subrange(occs[1].1, s.len() as int);
    assert(assemble(s, occs[1].1, ot.drop_first(), dt.drop_first()) == z);
    assert(assemble(s, occs[0].1, ot, dt) == m + t1 + z);
    assert(rendered(s, responses) == a + t0 + (m + t1 + z));
    assert(a + t0 + (m + t1 + z) =~= a + t0 + m + t1 + z);
}

fn is_space_byte(b: u8) -> (r: bool)
    ensures
        r == is_space(b),
{
    b == 32 || (b >= 9 && b <= 13)
}

/// When the first `a` bytes are whitespace and the next one is not,
/// trimming the front removes exactly those `a` bytes.
proof fn lemma_trim_front_at(s: Seq<u8>, a: int)
    requires
        0 <= a <= s.len(),
        forall|k: int| 0 <= k < a ==> is_space(#[trigger] s[k]),
        a < s.len() ==> !is_space(s[a]),
    ensures
        trim_front(s) == s.subrange(a, s.len() as int),
    decreases a,
{
    if a == 0 {
        assert(trim_front(s) =~= s.subrange(0, s.len() as int));
    } else {
        let t = s.drop_first();
        assert forall|k: int| 0 <= k < a - 1 implies is_space(#[trigger] t[k]) by {
            assert(t[k] == s[k + 1]);
        }
        lemma_trim_front_at(t, a - 1);
        assert(t.subrange(a - 1, t.len() as int) =~= s.subrange(a, s.len() as int));
    }
}

/// When everything from `b` on is whitespace and the byte before `b` is not,
/// trimming the back keeps exactly the first `b` bytes.
proof fn lemma_trim_back_at(s: Seq<u8>, b: int)
    requires
        0 <= b <= s.len(),
        forall|k: int| b <= k < s.len() ==> is_space(#[trigger] s[k]),
        b > 0 ==> !is_space(s[b - 1]),
    ensures
        trim_back(s) == s.subrange(0, b),
    decreases s.len(),
{
    if b == s.len() {
        assert(trim_back(s) =~= s.subrange(0, b));
    } else {
        let t = s.drop_last();
        assert(is_space(s[s.len() - 1]));
        lemma_trim_back_at(t, b);
        assert(t.subrange(0, b) =~= s.subrange(0, b));
    }
}

/// Remove leading and trailing ASCII whitespace from a response line.
pub fn trim(line: &Vec<u8>) -> (out: Vec<u8>)
    ensures
        out@ == trim_spec(line@),
{
    let ghost s = line@;
    let mut a: usize = 0;
    while a < line.len() && is_space_byte(line[a])
        invariant
            a <= s.len(),
            line@ == s,
            forall|k: int| 0 <= k < a ==> is_space(#[trigger] s[k]),
        decreases s.len() - a,
    {
        a = a + 1;
    }
    let mut b: usize = line.len();
    while b > a && is_space_byte(line[b - 1])
        invariant
            a <= b <= s.len(),
            line@ == s,
            forall|k: int| b <= k < s.len() ==> is_space(#[trigger] s[k]),
        decreases b,
    {
        b = b - 1;
    }
    let mut out: Vec<u8> = Vec::new();
    let mut i: usize = a;
    while i < b
        invariant
            a <= i <= b <= s.len(),
            line@ == s,
            out@ == s.subrange(a as int, i as int),
        decreases b - i,
    {
        out.push(line[i]);
        assert(out@ =~= s.subrange(a as int, i + 1 as int));
        i = i + 1;
    }
    proof {
        lemma_trim_front_at(s, a as int);
        let t = s.subrange(a as int, s.len() as int);
        assert forall|k: int| b - a <= k < t.len() implies is_space(#[trigger] t[k]) by {
            assert(t[k] == s[k + a]);
        }
        lemma_trim_back_at(t, b - a);
        assert(t.subrange(0, b - a) =~= s.subrange(a as int, b as int));
    }
    out
}

/// Decide one occurrence from its raw response.
pub fn resolve_response(response: &Option<Vec<u8>>) -> (r: Resolution)
    ensures
        r@ == resolution_of(response_view(*response)),
{
    match response {
        None => Resolution::Keep,
        Some(line) => {
            let t = trim(line);
            if t.len() == 0 {
                Resolution::Keep
            } else {
                Resolution::Replacement(t)
            }
        },
    }
}

/// Append `src[from..to]` to `dst`.
fn push_range(dst: &mut Vec<u8>, src: &Vec<u8>, from: usize, to: usize)
    requires
        from <= to <= src@.len(),
    ensures
        final(dst)@ == old(dst)@ + src@.subrange(from as int, to as int),
{
    let mut i: usize = from;
    while i < to
        invariant
            from <= i <= to <= src@.len(),
            dst@ == old(dst)@ + src@.subrange(from as int, i as int),
        decreases to - i,
    {
        dst.push(src[i]);
        assert(dst@ =~= old(dst)@ + src@.subrange(from as int, i + 1 as int));
        i = i + 1;
    }
}

/// One step of the reassembly: after emitting the span before occurrence `k`
/// and its resolved text, the remaining output is the one for the rest of
/// the occurrences.
proof fn lemma_substitute_step(
    s: Seq<u8>,
    govs: Seq<(int, int)>,
    grs: Seq<Option<Seq<u8>>>,
    pos: int,
    k: int,
    out0: Seq<u8>,
    out_now: Seq<u8>,
)
    requires
        grs.len() == govs.len(),
        0 <= k < govs.len(),
        out0 + assemble(s, pos, govs.skip(k), grs.skip(k)) == assemble(s, 0, govs, grs),
        out_now == out0 + s.subrange(pos, govs[k].0) + resolved_text(s, govs[k], grs[k]),
    ensures
        out_now + assemble(s, govs[k].1, govs.skip(k + 1), grs.skip(k + 1)) == assemble(
            s,
            0,
            govs,
            grs,
        ),
{
    let a = s.subrange(pos, govs[k].0);
    let b = resolved_text(s, govs[k], grs[k]);
    let c = assemble(s, govs[k].1, govs.skip(k + 1), grs.skip(k + 1));
    let tail = govs.skip(k);
    let rtail = grs.skip(k);
    assert(tail[0] == govs[k]);
    assert(rtail[0] == grs[k]);
    assert(tail.drop_first() =~= govs.skip(k + 1));
    assert(rtail.drop_first() =~= grs.skip(k + 1));
    assert(assemble(s, pos, tail, rtail) == a + b + c);
    assert(out0 + a + b + c =~= out0 + (a + b + c));
}

/// Emit the untouched span from `pos` up to one occurrence, then that
/// occurrence's resolved text.
fn emit_one(out: &mut Vec<u8>, body: &Vec<u8>, occ: Occurrence, r: &Resolution, pos: usize)
    requires
        pos <= occ@.0,
        is_placeholder(body@, occ@.0, occ@.1),
    ensures
        final(out)@ == old(out)@ + body@.subrange(pos as int, occ@.0) + resolved_text(
            body@,
            occ@,
            r@,
        ),
{
    push_range(out, body, pos, occ.start);
    match r {
        Resolution::Keep => {
            push_range(out, body, occ.start, occ.end);
        },
        Resolution::Replacement(t) => {
            push_range(out, t, 0, t.len());
            assert(t@.subrange(0, t@.len() as int) =~= t@);
        },
    }
}

/// Reassemble the document from the original body, its occurrences and one
/// resolution per occurrence: each resolved text is spliced into exactly the
/// byte range its occurrence occupied, and every other byte is copied
/// unchanged.
pub fn substitute(body: &Vec<u8>, occs: &Vec<Occurrence>, rs: &Vec<Resolution>) -> (out: Vec<u8>)
    requires
        occurrences_wf(body@, occs_view(occs@)),
        rs@.len() == occs@.len(),
    ensures
        out@ == assemble(body@, 0, occs_view(occs@), resolutions_view(rs@)),
{
    let ghost s = body@;
    let ghost govs = occs_view(occs@);
    let ghost grs = resolutions_view(rs@);
    let mut out: Vec<u8> = Vec::new();
    let mut pos: usize = 0;
    let mut k: usize = 0;
    proof {
        assert(govs.skip(0) =~= govs);
        assert(grs.skip(0) =~= grs);
        assert(Seq::<u8>::empty() + assemble(s, 0, govs, grs) =~= assemble(s, 0, govs, grs));
    }
    while k < occs.len()
        invariant
            body@ == s,
            occs_view(occs@) == govs,
            resolutions_view(rs@) == grs,
            occurrences_wf(s, govs),
            rs@.len() == occs@.len(),
            k <= govs.len(),
            pos <= s.len(),
            k == 0 ==> pos == 0,
            k > 0 ==> pos == govs[k - 1].1,
            out@ + assemble(s, pos as int, govs.skip(k as int), grs.skip(k as int)) == assemble(
                s,
                0,
                govs,
                grs,
            ),
        decreases govs.len() - k,
    {
        let ghost out0 = out@;
        let occ = occs[k];
        proof {
            assert(govs[k as int] == occs@[k as int]@);
            assert(is_placeholder(s, govs[k as int].0, govs[k as int].1));
            if k > 0 {
                assert(govs[k - 1].1 <= govs[k as int].0);
            }
        }
        emit_one(&mut out, body, occ, &rs[k], pos);
        proof {
            assert(grs[k as int] == rs@[k as int]@);
            lemma_substitute_step(s, govs, grs, pos as int, k as int, out0, out@);
        }
        pos = occ.end;
        k = k + 1;
    }
    proof {
        assert(govs.skip(k as int) =~= Seq::<(int, int)>::empty());
        assert(grs.skip(k as int) =~= Seq::<Option<Seq<u8>>>::empty());
    }
    let ghost out1 = out@;
    push_range(&mut out, body, pos, body.len());
    proof {
        assert(out@ == out1 + s.subrange(pos as int, s.len() as int));
        assert(out@ == assemble(s, 0, govs, grs));
    }
    out
}

/// Render the whole document: scan the original body once, decide each
/// occurrence from its raw response, and reassemble by the recorded
/// positions. Takes exactly one response per occurrence of the single scan.
pub fn render(body: &Vec<u8>, responses: &Vec<Option<Vec<u8>>>) -> (out: Vec<u8>)
    requires
        responses@.len() == scan_from(body@, 0).len(),
    ensures
        out@ == rendered(body@, responses_view(responses@)),
{
    let occs = scan(body);
    proof {
        lemma_scan_from_wf(body@, 0);
    }
    let ghost target = decisions_of(responses_view(responses@));
    let mut rs: Vec<Resolution> = Vec::new();
    let mut k: usize = 0;
    proof {
        assert(resolutions_view(rs@) =~= target.take(0));
    }
    while k < responses.len()
        invariant
            k <= responses@.len(),
            target == decisions_of(responses_view(responses@)),
            resolutions_view(rs@) == target.take(k as int),
        decreases responses@.len() - k,
    {
        let ghost prev = rs@;
        let r = resolve_response(&responses[k]);
        rs.push(r);
        proof {
            assert(target.len() == responses@.len());
            assert(prev.len() == resolutions_view(prev).len());
            assert(prev.len() == k);
            assert(responses_view(responses@)[k as int] == response_view(responses@[k as int]));
            assert(target[k as int] == resolution_of(responses_view(responses@)[k as int]));
            assert forall|i: int| 0 <= i < k + 1 implies resolutions_view(rs@)[i] == target.take(
                k + 1,
            )[i] by {
                if i < k {
                    assert(rs@[i] == prev[i]);
                    assert(resolutions_view(prev)[i] == target.take(k as int)[i]);
                } else {
                    assert(rs@[i] == r);
                }
            }
            assert(resolutions_view(rs@) =~= target.take(k + 1));
        }
        k = k + 1;
    }
    proof {
        assert(target.take(responses@.len() as int) =~= target);
    }
    substitute(body, &occs, &rs)
}

} // verus!
