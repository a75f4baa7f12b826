//! Chronological reconstruction of the wager-event stream from page
//! files: the historical group is sorted by filename ascending and
//! traversed newest-filename-first (its filenames decrease with age),
//! each page's records are reversed unless the filename carries the
//! full-dump marker, and the recent group follows, sorted ascending
//! with records used as stored.

use vstd::prelude::*;

use vstd::multiset::Multiset;

use crate::strutil::{has_substring, lex_le, str_contains, str_le};
use crate::types::WagerEvent;

verus! {

/// One page file of wager-event records, identified by its filename.
pub struct PageFile {
    /// Filename; decides the page's position in the stream and the
    /// stored order of its records.
    pub name: String,
    /// The page's records, in stored order.
    pub records: Vec<WagerEvent>,
}

/// A filename with this marker names a full/legacy dump page whose
/// records are stored oldest-first; all other pages store newest-first.
pub open spec fn legacy_dump_name(name: Seq<char>) -> bool {
    has_substring(name, "0000"@)
}

/// A page's records in oldest-first order.
pub open spec fn page_oldest_first(p: PageFile) -> Seq<WagerEvent> {
    if legacy_dump_name(p.name@) {
        p.records@
    } else {
        p.records@.reverse()
    }
}

/// Insertion of a page into a name-sorted sequence, before the first
/// page whose name is not smaller.
pub open spec fn insert_by_name(s: Seq<PageFile>, p: PageFile) -> Seq<PageFile>
    decreases s.len(),
{
    if s.len() == 0 {
        seq![p]
    } else if lex_le(p.name@, s[0].name@) {
        seq![p] + s
    } else {
        seq![s[0]] + insert_by_name(s.drop_first(), p)
    }
}

/// Insertion of every page of `rest`, taken from its end, into `base`.
pub open spec fn insert_all(base: Seq<PageFile>, rest: Seq<PageFile>) -> Seq<PageFile>
    decreases rest.len(),
{
    if rest.len() == 0 {
        base
    } else {
        insert_all(insert_by_name(base, rest.last()), rest.drop_last())
    }
}

/// The pages sorted by filename ascending.
pub open spec fn sort_by_name(s: Seq<PageFile>) -> Seq<PageFile> {
    insert_all(Seq::empty(), s)
}

/// The historical group's events oldest-first: pages in descending
/// filename order, each page's records put oldest-first.
pub open spec fn historical_events(pages: Seq<PageFile>) -> Seq<WagerEvent> {
    sort_by_name(pages).reverse().map_values(|p: PageFile| page_oldest_first(p)).flatten()
}

/// The recent group's events: pages in ascending filename order,
/// records in stored order.
pub open spec fn recent_events(pages: Seq<PageFile>) -> Seq<WagerEvent> {
    sort_by_name(pages).map_values(|p: PageFile| p.records@).flatten()
}

/// The whole stream: historical events, then recent events.
pub open spec fn stream_of(historical: Seq<PageFile>, recent: Seq<PageFile>) -> Seq<WagerEvent> {
    historical_events(historical) + recent_events(recent)
}

/// Ascending name order, adjacent pair by adjacent pair.
pub open spec fn pages_sorted(s: Seq<PageFile>) -> bool {
    forall|i: int| 0 <= i < s.len() - 1 ==> lex_le((#[trigger] s[i]).name@, s[i + 1].name@)
}

proof fn lemma_insert_keeps_sorted(s: Seq<PageFile>, p: PageFile)
    requires
        pages_sorted(s),
    ensures
        pages_sorted(insert_by_name(s, p)),
        insert_by_name(s, p).to_multiset() =~= s.to_multiset().insert(p),
    decreases s.len(),
{
    broadcast use vstd::seq_lib::lemma_multiset_commutative;
    broadcast use vstd::seq_lib::group_to_multiset_ensures;
    broadcast use vstd::multiset::group_multiset_axioms;

    if s.len() == 0 {
        assert(seq![p] =~= Seq::<PageFile>::empty().push(p));
        assert(seq![p].to_multiset() =~= s.to_multiset().insert(p));
    } else if lex_le(p.name@, s[0].name@) {
        let r = seq![p] + s;
        assert(seq![p] =~= Seq::<PageFile>::empty().push(p));
        assert(r.to_multiset() =~= s.to_multiset().insert(p));
        assert forall|i: int| 0 <= i < r.len() - 1 implies lex_le(
            (#[trigger] r[i]).name@,
            r[i + 1].name@,
        ) by {
            if i > 0 {
                assert(r[i] == s[i - 1] && r[i + 1] == s[i]);
            }
        }
    } else {
        crate::strutil::lemma_lex_le_total(p.name@, s[0].name@);
        assert(s.drop_first() =~= s.subrange(1, s.len() as int));
        assert(pages_sorted(s.drop_first())) by {
            assert forall|i: int| 0 <= i < s.drop_first().len() - 1 implies lex_le(
                (#[trigger] s.drop_first()[i]).name@,
                s.drop_first()[i + 1].name@,
            ) by {
                assert(s.drop_first()[i] == s[i + 1] && s.drop_first()[i + 1] == s[i + 2]);
            }
        }
        lemma_insert_keeps_sorted(s.drop_first(), p);
        let t = insert_by_name(s.drop_first(), p);
        let r = seq![s[0]] + t;
        assert(r.to_multiset() =~= s.to_multiset().insert(p)) by {
            assert(seq![s[0]] =~= Seq::<PageFile>::empty().push(s[0]));
            assert((seq![s[0]] + s.drop_first()).to_multiset() =~= s.to_multiset()) by {
                assert(seq![s[0]] + s.drop_first() =~= s);
            }
        }
        assert(t[0] == p || t[0] == s.drop_first()[0]) by {
            if s.drop_first().len() == 0 {
            } else if lex_le(p.name@, s.drop_first()[0].name@) {
            } else {
            }
        }
        assert forall|i: int| 0 <= i < r.len() - 1 implies lex_le(
            (#[trigger] r[i]).name@,
            r[i + 1].name@,
        ) by {
            if i == 0 {
                assert(r[0] == s[0] && r[1] == t[0]);
                if s.len() > 1 {
                    assert(s.drop_first()[0] == s[1]);
                }
            } else {
                assert(r[i] == t[i - 1] && r[i + 1] == t[i]);
            }
        }
    }
}

/// `sort_by_name` is a sort: its result is ascending by filename and
/// holds exactly the input's pages.
pub proof fn lemma_sort_by_name_sorts(s: Seq<PageFile>)
    ensures
        pages_sorted(sort_by_name(s)),
        sort_by_name(s).to_multiset() =~= s.to_multiset(),
{
    broadcast use vstd::seq_lib::group_to_multiset_ensures;
    broadcast use vstd::multiset::group_multiset_axioms;

    lemma_insert_all_sorts(Seq::empty(), s);
    assert(Seq::<PageFile>::empty().to_multiset() =~= Multiset::<PageFile>::empty());
}

proof fn lemma_insert_all_sorts(base: Seq<PageFile>, rest: Seq<PageFile>)
    requires
        pages_sorted(base),
    ensures
        pages_sorted(insert_all(base, rest)),
        insert_all(base, rest).to_multiset() =~= base.to_multiset().add(rest.to_multiset()),
    decreases rest.len(),
{
    broadcast use vstd::seq_lib::group_to_multiset_ensures;
    broadcast use vstd::multiset::group_multiset_axioms;

    if rest.len() == 0 {
        assert(rest.to_multiset() =~= Multiset::<PageFile>::empty());
    } else {
        let p = rest.last();
        lemma_insert_keeps_sorted(base, p);
        lemma_insert_all_sorts(insert_by_name(base, p), rest.drop_last());
        assert(rest =~= rest.drop_last().push(p));
        assert(rest.to_multiset() =~= rest.drop_last().to_multiset().insert(p));
    }
}

/// A vector with the elements in reverse order.
fn reverse_vec<T>(v: Vec<T>) -> (r: Vec<T>)
    ensures
        r@ == v@.reverse(),
{
    let ghost orig = v@;
    let mut rest = v;
    let mut out: Vec<T> = Vec::new();
    while rest.len() > 0
        invariant
            out@.len() + rest@.len() == orig.len(),
            rest@ == orig.subrange(0, rest@.len() as int),
            forall|k: int| 0 <= k < out@.len() ==> out@[k] == orig[orig.len() - 1 - k],
        decreases rest.len(),
    {
        match rest.pop() {
            Some(x) => {
                out.push(x);
            },
            None => {
                proof {
                    assert(false);
                }
            },
        }
    }
    proof {
        assert(out@ =~= orig.reverse());
    }
    out
}

proof fn lemma_insert_position(s: Seq<PageFile>, p: PageFile, i: int)
    requires
        0 <= i <= s.len(),
        forall|j: int| 0 <= j < i ==> !lex_le(p.name@, (#[trigger] s[j]).name@),
        i < s.len() ==> lex_le(p.name@, s[i].name@),
    ensures
        insert_by_name(s, p) == s.insert(i, p),
    decreases s.len(),
{
    if s.len() == 0 {
        assert(insert_by_name(s, p) =~= s.insert(0, p));
    } else if i == 0 {
        assert(seq![p] + s =~= s.insert(0, p));
    } else {
        assert(!lex_le(p.name@, s[0].name@));
        assert(forall|j: int|
            0 <= j < i - 1 ==> !lex_le(p.name@, (#[trigger] s.drop_first()[j]).name@));
        lemma_insert_position(s.drop_first(), p, i - 1);
        assert(seq![s[0]] + s.drop_first().insert(i - 1, p) =~= s.insert(i, p));
    }
}

/// Inserts a page before the first page whose name is not smaller.
fn insert_page(out: &mut Vec<PageFile>, p: PageFile)
    ensures
        final(out)@ == insert_by_name(old(out)@, p),
{
    let n = out.len();
    let mut i: usize = 0;
    let mut found = false;
    while !found && i < n
        invariant
            out@ == old(out)@,
            n == out@.len(),
            0 <= i <= n,
            forall|j: int| 0 <= j < i ==> !lex_le(p.name@, (#[trigger] out@[j]).name@),
            found ==> i < n && lex_le(p.name@, out@[i as int].name@),
        decreases n - i + (if found {
            0int
        } else {
            1int
        }),
    {
        if str_le(p.name.as_str(), out[i].name.as_str()) {
            found = true;
        } else {
            i = i + 1;
        }
    }
    proof {
        lemma_insert_position(out@, p, i as int);
    }
    out.insert(i, p);
}

/// The pages sorted by filename ascending.
pub fn sort_pages(pages: Vec<PageFile>) -> (r: Vec<PageFile>)
    ensures
        r@ == sort_by_name(pages@),
{
    let ghost orig = pages@;
    let mut rest = pages;
    let mut out: Vec<PageFile> = Vec::new();
    while rest.len() > 0
        invariant
            rest@.len() <= orig.len(),
            rest@ == orig.subrange(0, rest@.len() as int),
            insert_all(out@, rest@) == sort_by_name(orig),
        decreases rest.len(),
    {
        let ghost rest_pre = rest@;
        let ghost out_pre = out@;
        match rest.pop() {
            Some(p) => {
                proof {
                    assert(rest_pre.drop_last() =~= rest@);
                    assert(rest@ =~= orig.subrange(0, rest@.len() as int));
                }
                insert_page(&mut out, p);
                proof {
                    assert(insert_all(out_pre, rest_pre) == insert_all(
                        insert_by_name(out_pre, p),
                        rest@,
                    ));
                }
            },
            None => {
                proof {
                    assert(false);
                }
            },
        }
    }
    out
}

/// Builds the globally time-ascending event stream from the
/// historical and recent page groups.
pub fn assemble_stream(historical: Vec<PageFile>, recent: Vec<PageFile>) -> (r: Vec<WagerEvent>)
    ensures
        r@ == stream_of(historical@, recent@),
{
    let ghost hist_view = historical@;
    let ghost rec_view = recent@;
    let mut out: Vec<WagerEvent> = Vec::new();

    let mut sorted = sort_pages(historical);
    let ghost sorted0 = sorted@;
    let ghost desc = sorted0.reverse();
    proof {
        assert(desc.subrange(0, 0).map_values(|p: PageFile| page_oldest_first(p)).flatten()
            =~= Seq::<WagerEvent>::empty());
    }
    while sorted.len() > 0
        invariant
            sorted@.len() <= sorted0.len(),
            sorted@ == sorted0.subrange(0, sorted@.len() as int),
            desc == sorted0.reverse(),
            out@ == desc.subrange(0, sorted0.len() - sorted@.len()).map_values(
                |p: PageFile| page_oldest_first(p),
            ).flatten(),
        decreases sorted.len(),
    {
        let ghost k = sorted0.len() - sorted@.len();
        let ghost sorted_pre = sorted@;
        match sorted.pop() {
            Some(page) => {
                proof {
                    assert(page == sorted0[sorted_pre.len() - 1]);
                    assert(desc[k] == sorted0[sorted0.len() - 1 - k]);
                    assert(desc.subrange(0, k + 1) =~= desc.subrange(0, k).push(page));
                    assert(desc.subrange(0, k + 1).map_values(|p: PageFile| page_oldest_first(p))
                        =~= desc.subrange(0, k).map_values(|p: PageFile| page_oldest_first(p)).push(
                        page_oldest_first(page),
                    ));
                    Seq::lemma_flatten_push(
                        desc.subrange(0, k).map_values(|p: PageFile| page_oldest_first(p)),
                        page_oldest_first(page),
                    );
                    assert(sorted@ =~= sorted0.subrange(0, sorted@.len() as int));
                }
                let is_legacy = str_contains(page.name.as_str(), "0000");
                if is_legacy {
                    let mut records = page.records;
                    out.append(&mut records);
                } else {
                    let mut records = reverse_vec(page.records);
                    out.append(&mut records);
                }
            },
            None => {
                proof {
                    assert(false);
                }
            },
        }
    }
    proof {
        assert(desc.subrange(0, sorted0.len() as int) =~= desc);
        assert(out@ == historical_events(hist_view));
    }

    let mut rest_recent = sort_pages(recent);
    let ghost recent0 = rest_recent@;
    let ghost hist_done = out@;
    proof {
        assert(recent0.subrange(0, 0).map_values(|p: PageFile| p.records@).flatten()
            =~= Seq::<WagerEvent>::empty());
        assert(hist_done + recent0.subrange(0, 0).map_values(|p: PageFile| p.records@).flatten()
            =~= hist_done);
    }
    while rest_recent.len() > 0
        invariant
            rest_recent@.len() <= recent0.len(),
            rest_recent@ == recent0.subrange(
                recent0.len() - rest_recent@.len(),
                recent0.len() as int,
            ),
            out@ == hist_done + recent0.subrange(0, recent0.len() - rest_recent@.len()).map_values(
                |p: PageFile| p.records@,
            ).flatten(),
        decreases rest_recent.len(),
    {
        let ghost i = recent0.len() - rest_recent@.len();
        let ghost rest_pre = rest_recent@;
        let page = rest_recent.remove(0);
        proof {
            assert(page == recent0[i]);
            assert(rest_recent@ =~= recent0.subrange(
                recent0.len() - rest_recent@.len(),
                recent0.len() as int,
            ));
            assert(recent0.subrange(0, i + 1) =~= recent0.subrange(0, i).push(page));
            assert(recent0.subrange(0, i + 1).map_values(|p: PageFile| p.records@)
                =~= recent0.subrange(0, i).map_values(|p: PageFile| p.records@).push(page.records@));
            Seq::lemma_flatten_push(
                recent0.subrange(0, i).map_values(|p: PageFile| p.records@),
                page.records@,
            );
        }
        let mut records = page.records;
        out.append(&mut records);
    }
    proof {
        assert(recent0.subrange(0, recent0.len() as int) =~= recent0);
        assert(out@ == stream_of(hist_view, rec_view));
    }
    out
}

} // verus!
