//! Resolution of symbolic operands for final emission: label references
//! become absolute statement addresses, and symbolic indirect constants
//! are pooled at the end of the program.

use vstd::prelude::*;
use crate::labels::{entries_contain, entries_value, LabelMap};
use crate::module::lm_insert;
use crate::stmt::{Argument, ArgumentView, CmdWithArg, Command, CommandView, Statement, StatementView};

verus! {

/// A jump, branch or call argument names a label that is not defined
/// anywhere in the stream: the opcode and the label text.
#[derive(Debug)]
pub struct ResolveLabelError(pub CmdWithArg, pub String);

/// Whether a statement is a label definition.
pub open spec fn is_label_stmt(s: StatementView) -> bool {
    s.cmd is Label
}

/// How many of the first `k` statements are not label definitions — the
/// address the next non-label statement will occupy once labels are
/// stripped.
pub open spec fn nonlabel_count(stmts: Seq<StatementView>, k: int) -> int
    decreases k,
{
    if k <= 0 {
        0
    } else {
        nonlabel_count(stmts, k - 1) + (if is_label_stmt(stmts[k - 1]) {
            0int
        } else {
            1int
        })
    }
}

/// The label table over the first `k` statements: each label maps to the
/// address of the statement that follows it; a redefined label keeps the
/// last definition.
pub open spec fn scan_labels(stmts: Seq<StatementView>, k: int) -> Seq<(Seq<char>, usize)>
    decreases k,
{
    if k <= 0 {
        Seq::empty()
    } else {
        let pre = scan_labels(stmts, k - 1);
        match stmts[k - 1].cmd {
            CommandView::Label(l) => lm_insert(pre, l, nonlabel_count(stmts, k - 1) as usize),
            _ => pre,
        }
    }
}

/// The first `k` statements with label definitions removed.
pub open spec fn strip_labels(stmts: Seq<StatementView>, k: int) -> Seq<StatementView>
    decreases k,
{
    if k <= 0 {
        Seq::empty()
    } else {
        strip_labels(stmts, k - 1) + (if is_label_stmt(stmts[k - 1]) {
            Seq::empty()
        } else {
            seq![stmts[k - 1]]
        })
    }
}

/// One statement with a label operand replaced by the labelled address, or
/// the first resolution failure.
pub open spec fn resolve_one(
    s: StatementView,
    entries: Seq<(Seq<char>, usize)>,
) -> Result<StatementView, (CmdWithArg, Seq<char>)> {
    match s.cmd {
        CommandView::Wa(c, ArgumentView::Label(l)) => if entries_contain(entries, l) {
            Ok(
                StatementView {
                    cmd: CommandView::Wa(
                        c,
                        ArgumentView::Absolute(entries_value(entries, l) as i32),
                    ),
                    ..s
                },
            )
        } else {
            Err((c, l))
        },
        _ => Ok(s),
    }
}

/// The first `k` stripped statements resolved, or the first failure.
pub open spec fn resolve_stmts_upto(
    ss: Seq<StatementView>,
    entries: Seq<(Seq<char>, usize)>,
    k: int,
) -> Result<Seq<StatementView>, (CmdWithArg, Seq<char>)>
    decreases k,
{
    if k <= 0 {
        Ok(Seq::empty())
    } else {
        match resolve_stmts_upto(ss, entries, k - 1) {
            Ok(pre) => match resolve_one(ss[k - 1], entries) {
                Ok(s) => Ok(pre.push(s)),
                Err(e) => Err(e),
            },
            Err(e) => Err(e),
        }
    }
}

/// A resolution failure at some prefix persists to every longer prefix.
proof fn lemma_resolve_stmts_err_persists(
    ss: Seq<StatementView>,
    entries: Seq<(Seq<char>, usize)>,
    i: int,
    n: int,
)
    requires
        0 <= i <= n,
        resolve_stmts_upto(ss, entries, i) is Err,
    ensures
        resolve_stmts_upto(ss, entries, n) == resolve_stmts_upto(ss, entries, i),
    decreases n - i,
{
    if n > i {
        lemma_resolve_stmts_err_persists(ss, entries, i, n - 1);
    }
}

/// Strip label definitions from the stream and replace every label operand
/// of the surviving statements by the absolute address of the labelled
/// statement.  On success the statements are rewritten in place and the
/// label table is returned.  A label absent from the finished table is a
/// fatal error; the stream is then left in its partially resolved state —
/// labels stripped, references before the failing statement rewritten,
/// the failing statement and the rest untouched — with no rollback.
pub fn resolve_labels(stmts: &mut Vec<Statement>) -> (r: Result<LabelMap, ResolveLabelError>)
    requires
        old(stmts)@.len() <= i32::MAX,
    ensures
        ({
            let svs = old(stmts).deep_view();
            let entries = scan_labels(svs, svs.len() as int);
            let ss = strip_labels(svs, svs.len() as int);
            match r {
                Ok(lm) => {
                    &&& resolve_stmts_upto(ss, entries, ss.len() as int) == Ok::<
                        Seq<StatementView>,
                        (CmdWithArg, Seq<char>),
                    >(final(stmts).deep_view())
                    &&& lm@ == entries
                    &&& lm.wf()
                }
                Err(e) => {
                    &&& resolve_stmts_upto(ss, entries, ss.len() as int) == Err::<
                        Seq<StatementView>,
                        (CmdWithArg, Seq<char>),
                    >((e.0, e.1@))
                    &&& final(stmts)@.len() == ss.len()
                    &&& exists|k: int|
                        {
                            &&& 0 <= k < ss.len()
                            &&& resolve_stmts_upto(ss, entries, k) == Ok::<
                                Seq<StatementView>,
                                (CmdWithArg, Seq<char>),
                            >(final(stmts).deep_view().take(k))
                            &&& resolve_one(#[trigger] ss[k], entries) == Err::<
                                StatementView,
                                (CmdWithArg, Seq<char>),
                            >((e.0, e.1@))
                            &&& final(stmts).deep_view().skip(k) == ss.skip(k)
                        }
                }
            }
        }),
{
    let ghost svs = stmts.deep_view();
    let n = stmts.len();
    let ghost ni = n as int;
    let mut labels = LabelMap::new();
    let mut out: Vec<Statement> = Vec::new();
    let mut i: usize = 0;
    proof {
        assert(out.deep_view() =~= strip_labels(svs, 0));
        assert(labels@ =~= scan_labels(svs, 0));
    }
    while i < n
        invariant
            svs == stmts.deep_view(),
            n == svs.len() <= i32::MAX,
            ni == n as int,
            0 <= i <= n,
            labels@ == scan_labels(svs, i as int),
            labels.wf(),
            out.deep_view() == strip_labels(svs, i as int),
            out@.len() == nonlabel_count(svs, i as int),
        decreases n - i,
    {
        let ghost pre = out.deep_view();
        let ghost pre_labels = labels@;
        let s = stmts[i].clone();
        proof {
            assert(svs[i as int] == stmts@[i as int]@);
            assert(s@ == svs[i as int]);
            assert(0 <= nonlabel_count(svs, i as int) <= i) by {
                lemma_nonlabel_count_le(svs, i as int);
            }
        }
        match s.cmd {
            Command::Label(l) => {
                let ghost lv0 = l@;
                let v = out.len();
                labels.insert(l, v);
                proof {
                    if entries_contain(pre_labels, lv0) {
                        let w = choose|w: int|
                            0 <= w < pre_labels.len() && pre_labels[w].0 == lv0;
                        crate::module::lemma_lm_insert_at(pre_labels, w, lv0, v);
                    }
                    assert(labels@ == lm_insert(pre_labels, lv0, v));
                    assert(labels@ == scan_labels(svs, i + 1));
                    assert(out.deep_view() =~= strip_labels(svs, i + 1));
                }
            }
            cmd => {
                let loc = s.loc;
                let do_ignore = s.do_ignore;
                out.push(Statement { cmd, loc, do_ignore });
                proof {
                    assert(out.deep_view() =~= pre.push(svs[i as int]));
                    assert(strip_labels(svs, i + 1) =~= pre.push(svs[i as int]));
                    assert(labels@ == scan_labels(svs, i + 1));
                }
            }
        }
        i += 1;
    }
    let ghost entries = scan_labels(svs, ni);
    let ghost ss = strip_labels(svs, ni);
    // resolution pass over the stripped statements
    let m = out.len();
    let mut k: usize = 0;
    proof {
        assert(out.deep_view().take(0) =~= Seq::<StatementView>::empty());
        assert(resolve_stmts_upto(ss, entries, 0) == Ok::<
            Seq<StatementView>,
            (CmdWithArg, Seq<char>),
        >(Seq::empty()));
    }
    while k < m
        invariant
            svs == stmts.deep_view(),
            svs == old(stmts).deep_view(),
            n == svs.len() <= i32::MAX,
            ni == n as int,
            entries == scan_labels(svs, ni),
            ss == strip_labels(svs, ni),
            labels@ == entries,
            labels.wf(),
            m == ss.len(),
            out@.len() == m,
            m == nonlabel_count(svs, ni),
            0 <= k <= m,
            forall|q: int| k <= q < m ==> #[trigger] out.deep_view()[q] == ss[q],
            resolve_stmts_upto(ss, entries, k as int) == Ok::<
                Seq<StatementView>,
                (CmdWithArg, Seq<char>),
            >(out.deep_view().take(k as int)),
        decreases m - k,
    {
        let ghost pre_dv = out.deep_view();
        proof {
            assert(out.deep_view()[k as int] == out@[k as int]@);
            assert(out.deep_view()[k as int] == ss[k as int]);
        }
        let upd: Result<Option<Statement>, ResolveLabelError> = match &out[k].cmd {
            Command::Wa(c, Argument::Label(l)) => {
                match labels.get(l) {
                    Some(t) => {
                        proof {
                            lemma_scan_values_le(svs, ni);
                            crate::module::lemma_entries_value_bound(
                                entries,
                                l@,
                                i32::MAX + 1,
                            );
                        }
                        Ok(
                            Some(
                                Statement {
                                    cmd: Command::Wa(*c, Argument::Absolute(t as i32)),
                                    loc: match &out[k].loc {
                                        Some(x) => Some(x.clone()),
                                        None => None,
                                    },
                                    do_ignore: out[k].do_ignore,
                                },
                            ),
                        )
                    }
                    None => Err(ResolveLabelError(*c, l.clone())),
                }
            }
            _ => Ok(None),
        };
        let upd = match upd {
            Ok(u) => u,
            Err(e) => {
                proof {
                    assert(resolve_one(ss[k as int], entries) == Err::<
                        StatementView,
                        (CmdWithArg, Seq<char>),
                    >((e.0, e.1@)));
                    assert(resolve_stmts_upto(ss, entries, k + 1) == Err::<
                        Seq<StatementView>,
                        (CmdWithArg, Seq<char>),
                    >((e.0, e.1@)));
                    lemma_resolve_stmts_err_persists(ss, entries, k + 1, m as int);
                    assert(m as int == ss.len() as int);
                    assert(resolve_stmts_upto(ss, entries, ss.len() as int) == Err::<
                        Seq<StatementView>,
                        (CmdWithArg, Seq<char>),
                    >((e.0, e.1@)));
                }
                let ghost odv = out.deep_view();
                let ghost kk = k as int;
                *stmts = out;
                proof {
                    assert(stmts.deep_view() == odv);
                    assert(odv.skip(kk) =~= ss.skip(kk));
                    assert(odv.take(kk) =~= odv.take(kk));
                    assert(resolve_stmts_upto(ss, entries, kk) == Ok::<
                        Seq<StatementView>,
                        (CmdWithArg, Seq<char>),
                    >(odv.take(kk)));
                    assert(0 <= kk < ss.len());
                }
                return Err(e);
            }
        };
        match upd {
            Some(ns) => {
                proof {
                    assert(resolve_one(ss[k as int], entries) == Ok::<
                        StatementView,
                        (CmdWithArg, Seq<char>),
                    >(ns@));
                }
                out.set(k, ns);
            }
            None => {
                proof {
                    assert(resolve_one(ss[k as int], entries) == Ok::<
                        StatementView,
                        (CmdWithArg, Seq<char>),
                    >(ss[k as int]));
                }
            }
        }
        proof {
            assert(out.deep_view().take(k + 1) =~= out.deep_view().take(k as int).push(
                out.deep_view()[k as int],
            ));
            assert(out.deep_view().take(k as int) =~= pre_dv.take(k as int));
            assert forall|q: int| k + 1 <= q < m implies #[trigger] out.deep_view()[q]
                == ss[q] by {
                assert(out.deep_view()[q] == pre_dv[q]);
            }
        }
        k += 1;
    }
    proof {
        assert(out.deep_view().take(m as int) =~= out.deep_view());
    }
    *stmts = out;
    Ok(labels)
}

/// Every value of the scanned label table stays within the prefix length,
/// and its keys stay distinct.
proof fn lemma_scan_values_le(stmts: Seq<StatementView>, k: int)
    requires
        k >= 0,
    ensures
        forall|w: int|
            0 <= w < scan_labels(stmts, k).len() ==> ((#[trigger] scan_labels(stmts, k)[w]).1
                as int) <= k,
        crate::labels::entries_wf(scan_labels(stmts, k)),
    decreases k,
{
    if k > 0 {
        lemma_scan_values_le(stmts, k - 1);
        lemma_nonlabel_count_le(stmts, k - 1);
        let pre = scan_labels(stmts, k - 1);
        let cur = scan_labels(stmts, k);
        match stmts[k - 1].cmd {
            CommandView::Label(l) => {
                let nc = nonlabel_count(stmts, k - 1) as usize;
                if entries_contain(pre, l) {
                    let w = choose|w: int| 0 <= w < pre.len() && pre[w].0 == l;
                    crate::module::lemma_lm_insert_at(pre, w, l, nc);
                    assert(cur == pre.update(w, (l, nc)));
                    assert(forall|q: int| 0 <= q < cur.len() ==> cur[q].0 == pre[q].0);
                } else {
                    assert(cur == pre.push((l, nc)));
                    assert(forall|q: int| 0 <= q < pre.len() ==> cur[q] == pre[q]);
                    assert(crate::labels::entries_wf(cur)) by {
                        assert forall|q1: int, q2: int| 0 <= q1 < q2 < cur.len() implies cur[q1].0
                            != cur[q2].0 by {
                            if q2 == cur.len() - 1 {
                                assert(cur[q1].0 == pre[q1].0);
                            }
                        }
                    }
                }
            }
            _ => {}
        }
    }
}

/// Label values stay within the statement count.
proof fn lemma_nonlabel_count_le(stmts: Seq<StatementView>, k: int)
    requires
        k >= 0,
    ensures
        0 <= nonlabel_count(stmts, k) <= k,
    decreases k,
{
    if k > 0 {
        lemma_nonlabel_count_le(stmts, k - 1);
    }
}


// ---------------------------------------------------------------------------
// Indirect-constant pooling (see `resolve_idconsts`).  The pool of
// constants lives in an outside bidirectional map; the contracts below
// state what its source shows of the calls the pooling makes.
// ---------------------------------------------------------------------------

/// Declares bimap::BiHashMap so that the pool can stand in signatures;
/// the value is opaque and is spoken of only through [`bimap_pairs`].
#[verifier::external_type_specification]
#[verifier::external_body]
#[verifier::reject_recursive_types(L)]
#[verifier::reject_recursive_types(R)]
#[verifier::reject_recursive_types(LS)]
#[verifier::reject_recursive_types(RS)]
pub struct ExBiHashMap<L, R, LS, RS>(bimap::BiHashMap<L, R, LS, RS>);

/// The pairs a constant pool holds.
pub uninterp spec fn bimap_pairs(m: bimap::BiHashMap<i32, usize>) -> Set<(i32, usize)>;

/// Relies on bimap::BiHashMap::new: a fresh bimap holds no pairs.
#[verifier::external_body]
fn bimap_new() -> (m: bimap::BiHashMap<i32, usize>)
    ensures
        bimap_pairs(m) == Set::<(i32, usize)>::empty(),
{
    bimap::BiHashMap::new()
}

/// Relies on bimap::BiHashMap::insert_no_overwrite: the pair goes in
/// exactly when neither its left nor its right value is present; an
/// overlapping pair leaves the bimap unchanged.
#[verifier::external_body]
fn bimap_insert_no_overwrite(m: &mut bimap::BiHashMap<i32, usize>, l: i32, r: usize) -> (ok: bool)
    ensures
        ok == (forall|p: (i32, usize)|
            bimap_pairs(*old(m)).contains(p) ==> p.0 != l && p.1 != r),
        ok ==> bimap_pairs(*final(m)) == bimap_pairs(*old(m)).insert((l, r)),
        !ok ==> bimap_pairs(*final(m)) == bimap_pairs(*old(m)),
{
    m.insert_no_overwrite(l, r).is_ok()
}

/// Relies on bimap::BiHashMap::get_by_left: the right value paired with
/// `l`, when the bimap holds such a pair.
#[verifier::external_body]
fn bimap_get_by_left(m: &bimap::BiHashMap<i32, usize>, l: i32) -> (r: Option<usize>)
    ensures
        (match r {
            Some(v) => bimap_pairs(*m).contains((l, v)),
            None => forall|p: (i32, usize)| bimap_pairs(*m).contains(p) ==> p.0 != l,
        }),
{
    m.get_by_left(&l).copied()
}

/// Relies on bimap::BiHashMap::iter: each pair is handed out exactly
/// once; the order is the underlying hash maps' own and is not specified.
#[verifier::external_body]
fn bimap_to_vec(m: &bimap::BiHashMap<i32, usize>) -> (v: Vec<(i32, usize)>)
    ensures
        forall|p: (i32, usize)| #[trigger] v@.contains(p) <==> bimap_pairs(*m).contains(p),
        forall|q1: int, q2: int| 0 <= q1 < q2 < v@.len() ==> v@[q1] != v@[q2],
{
    m.iter().map(|(l, r)| (*l, *r)).collect()
}

/// The symbolic indirect constant a statement carries, if any.
pub open spec fn stmt_idconst(s: StatementView) -> Option<i32> {
    match s.cmd {
        CommandView::Def(ArgumentView::IdConst(x)) => Some(x),
        CommandView::Wa(_, ArgumentView::IdConst(x)) => Some(x),
        _ => None,
    }
}

/// The pooling state over the first `k` statements: which position each
/// distinct constant was assigned (first occurrence first, starting at
/// `base`), and the next free position.
pub open spec fn idc_state(stmts: Seq<StatementView>, base: int, k: int) -> (Map<int, int>, int)
    decreases k,
{
    if k <= 0 {
        (Map::empty(), base)
    } else {
        let (m, next) = idc_state(stmts, base, k - 1);
        match stmt_idconst(stmts[k - 1]) {
            Some(ic) => if m.dom().contains(ic as int) {
                (m, next)
            } else {
                (m.insert(ic as int, next), next + 1)
            },
            None => (m, next),
        }
    }
}

/// A statement with its indirect constant replaced by the constant's
/// pooled address.
pub open spec fn rewrite_idc(s: StatementView, m: Map<int, int>) -> StatementView {
    match s.cmd {
        CommandView::Def(ArgumentView::IdConst(ic)) => StatementView {
            cmd: CommandView::Def(ArgumentView::Absolute(m[ic as int] as i32)),
            ..s
        },
        CommandView::Wa(c, ArgumentView::IdConst(ic)) => StatementView {
            cmd: CommandView::Wa(c, ArgumentView::Absolute(m[ic as int] as i32)),
            ..s
        },
        _ => s,
    }
}

/// The `DEF` statement that pools the constant assigned to position
/// `pos`.
pub open spec fn pool_def_stmt(m: Map<int, int>, pos: int) -> StatementView {
    let ic = choose|ic: int| m.dom().contains(ic) && m[ic] == pos;
    StatementView {
        cmd: CommandView::Def(ArgumentView::Absolute(ic as i32)),
        loc: None,
        do_ignore: false,
    }
}

/// Whether some pooled constant was assigned position `pos`.
pub open spec fn pool_has_pos(m: Map<int, int>, pos: int) -> bool {
    exists|ic: int| #[trigger] m.dom().contains(ic) && m[ic] == pos
}

/// Shape of the pooling state: positions are assigned injectively and
/// exactly fill `base .. next`, and keys are `i32` constants.
proof fn lemma_idc_state_shape(stmts: Seq<StatementView>, base: int, k: int)
    requires
        k >= 0,
    ensures
        ({
            let (m, next) = idc_state(stmts, base, k);
            &&& base <= next <= base + k
            &&& forall|ic: int| m.dom().contains(ic) ==> base <= #[trigger] m[ic] < next
            &&& forall|ic: int|
                #[trigger] m.dom().contains(ic) ==> i32::MIN <= ic <= i32::MAX
            &&& forall|pos: int| base <= pos < next ==> #[trigger] pool_has_pos(m, pos)
            &&& forall|ic1: int, ic2: int|
                m.dom().contains(ic1) && m.dom().contains(ic2) && ic1 != ic2 ==> #[trigger] m[ic1]
                    != #[trigger] m[ic2]
        }),
    decreases k,
{
    if k > 0 {
        lemma_idc_state_shape(stmts, base, k - 1);
        let (m0, next0) = idc_state(stmts, base, k - 1);
        let (m, next) = idc_state(stmts, base, k);
        match stmt_idconst(stmts[k - 1]) {
            Some(ic) => {
                if !m0.dom().contains(ic as int) {
                    assert forall|pos: int| base <= pos < next implies #[trigger] pool_has_pos(
                        m,
                        pos,
                    ) by {
                        if pos < next0 {
                            assert(pool_has_pos(m0, pos));
                            let ic2 = choose|ic2: int|
                                #[trigger] m0.dom().contains(ic2) && m0[ic2] == pos;
                            assert(m.dom().contains(ic2) && m[ic2] == pos);
                        } else {
                            assert(m.dom().contains(ic as int) && m[ic as int] == pos);
                        }
                    }
                }
            }
            None => {}
        }
    }
}

/// The pooling map only grows along the scan, and settled entries never
/// change.
proof fn lemma_idc_state_mono(stmts: Seq<StatementView>, base: int, k1: int, k2: int)
    requires
        0 <= k1 <= k2,
    ensures
        ({
            let (m1, _) = idc_state(stmts, base, k1);
            let (m2, _) = idc_state(stmts, base, k2);
            forall|ic: int|
                #[trigger] m1.dom().contains(ic) ==> m2.dom().contains(ic) && m2[ic] == m1[ic]
        }),
    decreases k2 - k1,
{
    if k2 > k1 {
        lemma_idc_state_mono(stmts, base, k1, k2 - 1);
    }
}

/// The pairs held by the pool, as a set, for a given assignment map.
pub open spec fn pairs_of(m: Map<int, int>) -> Set<(i32, usize)> {
    Set::new(|p: (i32, usize)| m.dom().contains(p.0 as int) && m[p.0 as int] == p.1 as int)
}

/// Replace every symbolic indirect constant by an absolute address just
/// past the end of the stream, assigning one address per distinct
/// constant in order of first occurrence, and append a `DEF` of each
/// pooled constant at its assigned address, in address order.
pub fn resolve_idconsts(stmts: &mut Vec<Statement>)
    requires
        2 * old(stmts)@.len() <= i32::MAX,
    ensures
        ({
            let svs = old(stmts).deep_view();
            let n = svs.len() as int;
            let (m, next) = idc_state(svs, n, n);
            &&& final(stmts).deep_view().len() == next
            &&& forall|q: int|
                0 <= q < n ==> #[trigger] final(stmts).deep_view()[q] == rewrite_idc(svs[q], m)
            &&& forall|q: int|
                n <= q < next ==> #[trigger] final(stmts).deep_view()[q] == pool_def_stmt(m, q)
        }),
{
    let ghost svs = stmts.deep_view();
    let n = stmts.len();
    let ghost ni = n as int;
    let mut pool = bimap_new();
    let mut hicnt: usize = n;
    let mut k: usize = 0;
    while k < n
        invariant
            n == svs.len(),
            2 * n <= i32::MAX,
            ni == n as int,
            stmts@.len() == n,
            0 <= k <= n,
            hicnt as int == idc_state(svs, ni, k as int).1,
            bimap_pairs(pool) == pairs_of(idc_state(svs, ni, k as int).0),
            forall|q: int| k <= q < n ==> #[trigger] stmts.deep_view()[q] == svs[q],
            forall|q: int|
                0 <= q < k ==> #[trigger] stmts.deep_view()[q] == rewrite_idc(
                    svs[q],
                    idc_state(svs, ni, k as int).0,
                ),
            forall|q: int|
                0 <= q < k && stmt_idconst(svs[q]) is Some ==> idc_state(
                    svs,
                    ni,
                    k as int,
                ).0.dom().contains(stmt_idconst(svs[q])->Some_0 as int),
        decreases n - k,
    {
        let ghost st_pre = idc_state(svs, ni, k as int);
        let ghost st_post = idc_state(svs, ni, k + 1);
        proof {
            lemma_idc_state_shape(svs, ni, k as int);
            assert(stmts.deep_view()[k as int] == stmts@[k as int]@);
            assert(stmts.deep_view()[k as int] == svs[k as int]);
        }
        let icv: Option<i32> = match &stmts[k].cmd {
            Command::Def(Argument::IdConst(x)) => Some(*x),
            Command::Wa(_, Argument::IdConst(x)) => Some(*x),
            _ => None,
        };
        match icv {
            Some(ic) => {
                proof {
                    assert(stmt_idconst(svs[k as int]) == Some(ic));
                }
                let fresh = bimap_insert_no_overwrite(&mut pool, ic, hicnt);
                proof {
                    if st_pre.0.dom().contains(ic as int) {
                        // the pool already holds this constant, paired
                        // with a position below hicnt
                        assert(pairs_of(st_pre.0).contains(
                            (ic, st_pre.0[ic as int] as usize),
                        ));
                        assert(!fresh);
                        assert(st_post == st_pre);
                    } else {
                        assert forall|p: (i32, usize)|
                            pairs_of(st_pre.0).contains(p) implies p.0 != ic && p.1
                            != hicnt by {}
                        assert(fresh);
                        assert(st_post.0 == st_pre.0.insert(ic as int, hicnt as int));
                        assert(pairs_of(st_post.0) =~= pairs_of(st_pre.0).insert(
                            (ic, hicnt),
                        ));
                    }
                }
                if fresh {
                    hicnt += 1;
                }
                let pos = match bimap_get_by_left(&pool, ic) {
                    Some(p) => p,
                    None => {
                        proof {
                            assert(pairs_of(st_post.0).contains(
                                (ic, st_post.0[ic as int] as usize),
                            )) by {
                                lemma_idc_state_shape(svs, ni, k + 1);
                            }
                            assert(false);
                        }
                        0
                    }
                };
                proof {
                    assert(st_post.0[ic as int] == pos as int);
                    lemma_idc_state_shape(svs, ni, k + 1);
                }
                let ns = match &stmts[k].cmd {
                    Command::Def(Argument::IdConst(_)) => Statement {
                        cmd: Command::Def(Argument::Absolute(pos as i32)),
                        loc: match &stmts[k].loc {
                            Some(l) => Some(l.clone()),
                            None => None,
                        },
                        do_ignore: stmts[k].do_ignore,
                    },
                    Command::Wa(c, Argument::IdConst(_)) => Statement {
                        cmd: Command::Wa(*c, Argument::Absolute(pos as i32)),
                        loc: match &stmts[k].loc {
                            Some(l) => Some(l.clone()),
                            None => None,
                        },
                        do_ignore: stmts[k].do_ignore,
                    },
                    _ => Statement { cmd: Command::Na(crate::stmt::CmdNoArg::Hlt), loc: None, do_ignore: false },
                };
                proof {
                    assert(ns@ == rewrite_idc(svs[k as int], st_post.0));
                }
                let ghost pre_shallow = stmts@;
                let ghost pre_dv = stmts.deep_view();
                stmts.set(k, ns);
                proof {
                    assert(stmts@ == pre_shallow.update(k as int, ns));
                    assert forall|q: int| 0 <= q < k + 1 implies #[trigger] stmts.deep_view()[q]
                        == rewrite_idc(svs[q], st_post.0) by {
                        assert(stmts.deep_view()[q] == stmts@[q]@);
                        if q < k {
                            assert(stmts@[q] == pre_shallow[q]);
                            assert(pre_dv[q] == pre_shallow[q]@);
                            lemma_idc_state_mono(svs, ni, k as int, k + 1);
                            assert(pre_dv[q] == rewrite_idc(svs[q], st_pre.0));
                            assert(rewrite_idc(svs[q], st_pre.0) == rewrite_idc(
                                svs[q],
                                st_post.0,
                            ));
                        }
                    }
                    assert forall|q: int| k + 1 <= q < n implies #[trigger] stmts.deep_view()[q]
                        == svs[q] by {
                        assert(stmts.deep_view()[q] == stmts@[q]@);
                        assert(stmts@[q] == pre_shallow[q]);
                        assert(pre_dv[q] == pre_shallow[q]@);
                        assert(pre_dv[q] == svs[q]);
                    }
                }
            }
            None => {
                proof {
                    assert(stmt_idconst(svs[k as int]) is None);
                    assert(st_post == st_pre);
                }
            }
        }
        k += 1;
    }
    let ghost fst = idc_state(svs, ni, ni);
    proof {
        lemma_idc_state_shape(svs, ni, ni);
    }
    // append the pooled constants in address order
    let pairs = bimap_to_vec(&pool);
    let mut pos: usize = n;
    while pos < hicnt
        invariant
            n == svs.len(),
            2 * n <= i32::MAX,
            ni == n as int,
            fst == idc_state(svs, ni, ni),
            hicnt as int == fst.1,
            n <= pos <= hicnt,
            bimap_pairs(pool) == pairs_of(fst.0),
            forall|p: (i32, usize)| #[trigger] pairs@.contains(p) <==> pairs_of(fst.0).contains(
                p,
            ),
            pool_progress(svs, ni, fst.0, stmts.deep_view(), pos as int),
        decreases hicnt - pos,
    {
        // find the constant assigned to this position
        let mut found: Option<i32> = None;
        let mut w: usize = 0;
        let pn = pairs.len();
        while w < pn
            invariant
                pn == pairs@.len(),
                0 <= w <= pn,
                (match found {
                    Some(ic) => pairs@.contains((ic, pos)),
                    None => forall|w2: int|
                        0 <= w2 < w ==> (#[trigger] pairs@[w2]).1 != pos,
                }),
            decreases pn - w,
        {
            if pairs[w].1 == pos {
                found = Some(pairs[w].0);
                proof {
                    assert(pairs@[w as int] == (pairs@[w as int].0, pos));
                }
            }
            w += 1;
        }
        let ic = match found {
            Some(ic) => ic,
            None => {
                proof {
                    lemma_idc_state_shape(svs, ni, ni);
                    assert(pool_has_pos(fst.0, pos as int));
                    let ic0 = choose|ic0: int|
                        #[trigger] fst.0.dom().contains(ic0) && fst.0[ic0] == pos as int;
                    assert(pairs_of(fst.0).contains((ic0 as i32, pos)));
                    assert(pairs@.contains((ic0 as i32, pos)));
                    let w2 = choose|w2: int|
                        0 <= w2 < pairs@.len() && pairs@[w2] == (ic0 as i32, pos);
                    assert(false);
                }
                0
            }
        };
        let ghost pre_dv = stmts.deep_view();
        stmts.push(Statement { cmd: Command::Def(Argument::Absolute(ic)), loc: None, do_ignore: false });
        proof {
            lemma_idc_state_shape(svs, ni, ni);
            assert(pairs_of(fst.0).contains((ic, pos)));
            assert(fst.0.dom().contains(ic as int) && fst.0[ic as int] == pos as int);
            let icc = choose|icc: int| fst.0.dom().contains(icc) && fst.0[icc] == pos as int;
            assert(icc == ic as int);
            assert(i32::MIN <= icc <= i32::MAX);
            assert(pool_def_stmt(fst.0, pos as int) == StatementView {
                cmd: CommandView::Def(ArgumentView::Absolute(ic)),
                loc: None,
                do_ignore: false,
            });
            assert(stmts.deep_view() =~= pre_dv.push(pool_def_stmt(fst.0, pos as int)));
            assert(pool_progress(svs, ni, fst.0, stmts.deep_view(), pos + 1)) by {
                assert(stmts.deep_view().len() == pos + 1);
                assert(forall|q: int|
                    0 <= q < ni ==> #[trigger] stmts.deep_view()[q] == pre_dv[q]);
                assert(forall|q: int|
                    ni <= q < pos ==> #[trigger] stmts.deep_view()[q] == pre_dv[q]);
            }
        }
        pos += 1;
    }
}

/// The stream once the scan is done and the pool entries below `pos`
/// have been appended: the rewritten originals, then one `DEF` per
/// assigned position.
pub open spec fn pool_progress(
    svs: Seq<StatementView>,
    n: int,
    m: Map<int, int>,
    dv: Seq<StatementView>,
    pos: int,
) -> bool {
    &&& dv.len() == pos
    &&& forall|q: int| 0 <= q < n ==> #[trigger] dv[q] == rewrite_idc(svs[q], m)
    &&& forall|q: int| n <= q < pos ==> #[trigger] dv[q] == pool_def_stmt(m, q)
}

} // verus!
