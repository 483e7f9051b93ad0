//! Turning parsed ranges into ordered copy instructions.
//!
//! Extraction walks the ranges in order and, within each range, the source
//! pages in ascending order, appending each page to the destination; the
//! target index of every instruction is therefore its position in the plan.
//! Concatenation is the degenerate case: every page of every input
//! document, in document-then-page order, with no rotation handling.

use vstd::prelude::*;
use crate::parser::{lemma_find_sep, find_sep, parse_pages, spec_parse_pages, spec_parse_unit};
use crate::types::{CopyInstruction, DocCopy, PageRange, ParseError, Rotation};

verus! {

/// The source pages a range selects, in ascending order, each paired with
/// the range's rotation override.
pub open spec fn range_copies(r: PageRange) -> Seq<(u32, Option<Rotation>)>
    recommends
        r.wf(),
{
    Seq::new((r.end - r.start + 1) as nat, |k: int| ((r.start + k) as u32, r.rotation))
}

/// The pages selected by the first `upto - r.start` pages of a range: the
/// part of `range_copies` a partially processed range has produced.
pub open spec fn range_copies_upto(r: PageRange, upto: int) -> Seq<(u32, Option<Rotation>)>
    recommends
        r.start <= upto <= r.end + 1,
{
    Seq::new((upto - r.start) as nat, |k: int| ((r.start + k) as u32, r.rotation))
}

/// All (source page, rotation) pairs of a range sequence, flattened in
/// range order.
pub open spec fn flat_copies(rs: Seq<PageRange>) -> Seq<(u32, Option<Rotation>)>
    decreases rs.len(),
{
    if rs.len() == 0 {
        Seq::empty()
    } else {
        flat_copies(rs.drop_last()) + range_copies(rs.last())
    }
}

/// Copy instructions for a flattened pair sequence: the instruction at
/// position `k` copies the `k`-th selected page to target index `k`.
pub open spec fn instr_of(c: Seq<(u32, Option<Rotation>)>) -> Seq<CopyInstruction> {
    Seq::new(
        c.len(),
        |k: int| CopyInstruction {
            source_index: c[k].0,
            target_index: k as usize,
            rotation_override: c[k].1,
        },
    )
}

/// The extraction plan for a range sequence.
pub open spec fn spec_assemble(rs: Seq<PageRange>) -> Seq<CopyInstruction> {
    instr_of(flat_copies(rs))
}

/// Appending one pair to the flattened sequence appends one instruction,
/// whose target index is the old length.
proof fn lemma_instr_of_push(c: Seq<(u32, Option<Rotation>)>, x: (u32, Option<Rotation>))
    ensures
        instr_of(c.push(x)) =~= instr_of(c).push(
            CopyInstruction {
                source_index: x.0,
                target_index: c.len() as usize,
                rotation_override: x.1,
            },
        ),
{
}

/// Extending a range prefix by one range flattens to the shorter prefix
/// followed by that range's own pages.
proof fn lemma_flat_copies_step(rs: Seq<PageRange>, i: int)
    requires
        0 <= i < rs.len(),
    ensures
        flat_copies(rs.subrange(0, i + 1)) == flat_copies(rs.subrange(0, i)) + range_copies(
            rs[i],
        ),
{
    let pre1 = rs.subrange(0, i + 1);
    assert(pre1.drop_last() =~= rs.subrange(0, i));
    assert(pre1.last() == rs[i]);
}

/// Builds the extraction plan for validated ranges: one instruction per
/// selected source page, in range order and ascending page order within
/// each range, each instruction carrying its range's rotation override and
/// a target index equal to its position.
pub fn assemble(ranges: &Vec<PageRange>) -> (r: Vec<CopyInstruction>)
    requires
        forall|i: int| 0 <= i < ranges@.len() ==> (#[trigger] ranges@[i]).wf(),
    ensures
        r@ == spec_assemble(ranges@),
{
    let mut out: Vec<CopyInstruction> = Vec::new();
    proof {
        assert(flat_copies(ranges@.subrange(0, 0)) =~= Seq::<(u32, Option<Rotation>)>::empty());
        assert(out@ =~= instr_of(flat_copies(ranges@.subrange(0, 0))));
    }
    let n = ranges.len();
    let mut ri: usize = 0;
    while ri < n
        invariant
            ri <= n,
            n == ranges@.len(),
            forall|i: int| 0 <= i < ranges@.len() ==> (#[trigger] ranges@[i]).wf(),
            out@ == instr_of(flat_copies(ranges@.subrange(0, ri as int))),
        decreases n - ri,
    {
        let rg = ranges[ri];
        let ghost flat_pre = flat_copies(ranges@.subrange(0, ri as int));
        let mut src: u32 = rg.start;
        proof {
            assert(range_copies_upto(rg, rg.start as int) =~= Seq::<
                (u32, Option<Rotation>),
            >::empty());
            assert(flat_pre + range_copies_upto(rg, rg.start as int) =~= flat_pre);
        }
        loop
            invariant_except_break
                rg == ranges@[ri as int],
                rg.start <= src <= rg.end,
                out@ == instr_of(flat_pre + range_copies_upto(rg, src as int)),
            ensures
                out@ == instr_of(flat_pre + range_copies(rg)),
            decreases rg.end - src,
        {
            let t = out.len();
            proof {
                let c = flat_pre + range_copies_upto(rg, src as int);
                lemma_instr_of_push(c, (src, rg.rotation));
                assert(c.push((src, rg.rotation)) =~= flat_pre + range_copies_upto(
                    rg,
                    src as int + 1,
                ));
                assert(t == c.len());
            }
            out.push(
                CopyInstruction { source_index: src, target_index: t, rotation_override: rg.rotation },
            );
            if src == rg.end {
                proof {
                    assert(range_copies_upto(rg, rg.end + 1) =~= range_copies(rg));
                }
                break;
            }
            src = src + 1;
        }
        proof {
            lemma_flat_copies_step(ranges@, ri as int);
        }
        ri += 1;
    }
    proof {
        assert(ranges@.subrange(0, n as int) =~= ranges@);
    }
    out
}

/// Which rotation, if any, the engine should set on a page just copied:
/// the requested override when it differs from the page's current
/// rotation, and nothing when no override was requested or the page
/// already has the requested rotation.
pub open spec fn spec_rotation_action(requested: Option<Rotation>, current: Rotation) -> Option<
    Rotation,
> {
    match requested {
        None => None,
        Some(rot) => if rot == current {
            None
        } else {
            Some(rot)
        },
    }
}

/// Decides whether a rotation-set operation is owed for one copied page.
/// A page whose rotation already equals the requested override is left
/// untouched.
pub fn rotation_action(requested: Option<Rotation>, current: Rotation) -> (r: Option<Rotation>)
    ensures
        r == spec_rotation_action(requested, current),
        requested is None ==> r is None,
        requested == Some(current) ==> r is None,
{
    match requested {
        None => None,
        Some(rot) => if rot == current {
            None
        } else {
            Some(rot)
        },
    }
}

/// All (document, page) pairs of a concatenation, flattened in document
/// order, pages of each document in their existing order.
pub open spec fn doc_copies(counts: Seq<u32>) -> Seq<(usize, u32)>
    decreases counts.len(),
{
    if counts.len() == 0 {
        Seq::empty()
    } else {
        doc_copies(counts.drop_last()) + Seq::new(
            counts.last() as nat,
            |k: int| ((counts.len() - 1) as usize, k as u32),
        )
    }
}

/// The concatenation plan for input documents with the given page counts.
pub open spec fn spec_concat_plan(counts: Seq<u32>) -> Seq<DocCopy> {
    Seq::new(
        doc_copies(counts).len(),
        |k: int| DocCopy {
            doc_index: doc_copies(counts)[k].0,
            source_index: doc_copies(counts)[k].1,
            target_index: k as usize,
        },
    )
}

/// The number of pages a concatenation produces: the sum of the inputs'
/// page counts.
pub open spec fn total_pages(counts: Seq<u32>) -> nat
    decreases counts.len(),
{
    if counts.len() == 0 {
        0
    } else {
        (total_pages(counts.drop_last()) + counts.last()) as nat
    }
}

/// A concatenation plan has exactly one instruction per input page.
pub proof fn lemma_concat_plan_len(counts: Seq<u32>)
    ensures
        spec_concat_plan(counts).len() == total_pages(counts),
    decreases counts.len(),
{
    if counts.len() > 0 {
        lemma_concat_plan_len(counts.drop_last());
    }
}

/// The pages a partially processed document has contributed so far.
pub open spec fn doc_copies_upto(counts: Seq<u32>, di: int, j: int) -> Seq<(usize, u32)>
    recommends
        0 <= di < counts.len(),
        0 <= j <= counts[di],
{
    doc_copies(counts.subrange(0, di)) + Seq::new(j as nat, |k: int| (di as usize, k as u32))
}

/// Instructions for a flattened (document, page) sequence, target indices
/// in arrival order.
pub open spec fn doc_instr_of(c: Seq<(usize, u32)>) -> Seq<DocCopy> {
    Seq::new(
        c.len(),
        |k: int| DocCopy { doc_index: c[k].0, source_index: c[k].1, target_index: k as usize },
    )
}

/// `spec_concat_plan` is `doc_instr_of` of the flattened pairs.
proof fn lemma_concat_plan_alt(counts: Seq<u32>)
    ensures
        spec_concat_plan(counts) =~= doc_instr_of(doc_copies(counts)),
{
}

/// Appending one pair appends one instruction at the old length.
proof fn lemma_doc_instr_of_push(c: Seq<(usize, u32)>, x: (usize, u32))
    ensures
        doc_instr_of(c.push(x)) =~= doc_instr_of(c).push(
            DocCopy { doc_index: x.0, source_index: x.1, target_index: c.len() as usize },
        ),
{
}

/// One more whole document flattens to the shorter prefix followed by all
/// of that document's pages.
proof fn lemma_doc_copies_step(counts: Seq<u32>, di: int)
    requires
        0 <= di < counts.len(),
    ensures
        doc_copies(counts.subrange(0, di + 1)) == doc_copies(counts.subrange(0, di)) + Seq::new(
            counts[di] as nat,
            |k: int| (di as usize, k as u32),
        ),
{
    let pre1 = counts.subrange(0, di + 1);
    assert(pre1.drop_last() =~= counts.subrange(0, di));
    assert(pre1.last() == counts[di]);
    assert(pre1.len() - 1 == di);
}

/// Builds the concatenation plan for input documents with the given page
/// counts: every page of every document, in document-then-page order, with
/// target indices increasing across document boundaries.
pub fn concat_plan(counts: &Vec<u32>) -> (r: Vec<DocCopy>)
    ensures
        r@ == spec_concat_plan(counts@),
        r@.len() == total_pages(counts@),
{
    let mut out: Vec<DocCopy> = Vec::new();
    proof {
        assert(doc_copies(counts@.subrange(0, 0)) =~= Seq::<(usize, u32)>::empty());
        assert(out@ =~= doc_instr_of(doc_copies(counts@.subrange(0, 0))));
    }
    let n = counts.len();
    let mut di: usize = 0;
    while di < n
        invariant
            di <= n,
            n == counts@.len(),
            out@ == doc_instr_of(doc_copies(counts@.subrange(0, di as int))),
        decreases n - di,
    {
        let pages = counts[di];
        let ghost flat_pre = doc_copies(counts@.subrange(0, di as int));
        let mut j: u32 = 0;
        proof {
            assert(doc_copies_upto(counts@, di as int, 0) =~= flat_pre);
        }
        while j < pages
            invariant
                j <= pages,
                di < counts@.len(),
                pages == counts@[di as int],
                out@ == doc_instr_of(doc_copies_upto(counts@, di as int, j as int)),
            decreases pages - j,
        {
            let t = out.len();
            proof {
                let c = doc_copies_upto(counts@, di as int, j as int);
                lemma_doc_instr_of_push(c, (di, j));
                assert(c.push((di, j)) =~= doc_copies_upto(counts@, di as int, j as int + 1));
                assert(t == c.len());
            }
            out.push(DocCopy { doc_index: di, source_index: j, target_index: t });
            j = j + 1;
        }
        proof {
            lemma_doc_copies_step(counts@, di as int);
            assert(doc_copies_upto(counts@, di as int, pages as int) == doc_copies(
                counts@.subrange(0, di as int + 1),
            ));
        }
        di += 1;
    }
    proof {
        assert(counts@.subrange(0, n as int) =~= counts@);
        lemma_concat_plan_alt(counts@);
        lemma_concat_plan_len(counts@);
    }
    out
}

/// Every range a successful parse yields is a valid span of the document:
/// well formed and entirely within the page count.
pub proof fn lemma_parse_ranges_valid(s: Seq<u8>, page_count: u32)
    requires
        spec_parse_pages(s, page_count) is Ok,
    ensures
        forall|i: int|
            0 <= i < spec_parse_pages(s, page_count)->Ok_0.len() ==> (
            #[trigger] spec_parse_pages(s, page_count)->Ok_0[i]).valid_for(page_count),
    decreases s.len(),
{
    lemma_find_sep(s, 32);
    match find_sep(s, 32) {
        None => {
            lemma_parse_unit_valid(s, page_count);
        },
        Some(i) => {
            lemma_parse_unit_valid(s.subrange(0, i), page_count);
            lemma_parse_ranges_valid(s.subrange(i + 1, s.len() as int), page_count);
            let r = spec_parse_unit(s.subrange(0, i), page_count)->Ok_0;
            let rest = spec_parse_pages(s.subrange(i + 1, s.len() as int), page_count)->Ok_0;
            assert forall|k: int| 0 <= k < (seq![r] + rest).len() implies (#[trigger] (seq![r]
                + rest)[k]).valid_for(page_count) by {
                if k > 0 {
                    assert(rest[k - 1].valid_for(page_count));
                }
            }
        },
    }
}

/// A successfully parsed unit is a valid span of the document.
proof fn lemma_parse_unit_valid(s: Seq<u8>, page_count: u32)
    requires
        spec_parse_unit(s, page_count) is Ok,
    ensures
        spec_parse_unit(s, page_count)->Ok_0.valid_for(page_count),
{
}

/// The whole extraction plan for a range expression: parse, validate, and
/// assemble. On success the instructions are exactly the assembly of the
/// parsed ranges; on failure nothing is planned and the parse error is
/// reported unchanged.
pub fn extract_plan(expr: &[u8], page_count: u32) -> (r: Result<Vec<CopyInstruction>, ParseError>)
    ensures
        match r {
            Ok(v) => spec_parse_pages(expr@, page_count) is Ok && v@ == spec_assemble(
                spec_parse_pages(expr@, page_count)->Ok_0,
            ),
            Err(e) => spec_parse_pages(expr@, page_count) == Result::<
                Seq<PageRange>,
                ParseError,
            >::Err(e),
        },
{
    match parse_pages(expr, page_count) {
        Err(e) => Err(e),
        Ok(ranges) => {
            proof {
                lemma_parse_ranges_valid(expr@, page_count);
                assert forall|i: int| 0 <= i < ranges@.len() implies (
                #[trigger] ranges@[i]).wf() by {
                    assert(spec_parse_pages(expr@, page_count)->Ok_0[i].valid_for(page_count));
                }
            }
            Ok(assemble(&ranges))
        },
    }
}

} // verus!
