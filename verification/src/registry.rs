//! Market registry: question records loaded from an ordered list of
//! sources, where a later source's record replaces an earlier one
//! wholesale, exposed as lookup by question id.

use vstd::prelude::*;

use crate::strutil::str_eq;
use crate::types::Question;

verus! {

/// The question whose id matches, preferring the latest occurrence.
pub open spec fn lookup_last(qs: Seq<Question>, id: Seq<char>) -> Option<Question>
    decreases qs.len(),
{
    if qs.len() == 0 {
        None
    } else if qs.last().id@ == id {
        Some(qs.last())
    } else {
        lookup_last(qs.drop_last(), id)
    }
}

/// Views of an ordered list of sources.
pub open spec fn sources_view(s: Seq<Vec<Question>>) -> Seq<Seq<Question>> {
    s.map_values(|v: Vec<Question>| v@)
}

/// The record an ordered list of sources yields for an id: the record
/// of the latest occurrence, so a later source takes unconditional
/// precedence over an earlier one.
pub open spec fn merged_lookup(sources: Seq<Seq<Question>>, id: Seq<char>) -> Option<Question> {
    lookup_last(sources.flatten(), id)
}

/// No two records share an id.
pub open spec fn unique_ids(qs: Seq<Question>) -> bool {
    forall|i: int, j: int| 0 <= i < j < qs.len() ==> (#[trigger] qs[i]).id@ != (#[trigger] qs[j]).id@
}

proof fn lemma_lookup_push(qs: Seq<Question>, q: Question, id: Seq<char>)
    ensures
        lookup_last(qs.push(q), id) == if id == q.id@ {
            Some(q)
        } else {
            lookup_last(qs, id)
        },
{
    assert(qs.push(q).last() == q);
    assert(qs.push(q).drop_last() =~= qs);
}

proof fn lemma_lookup_found(qs: Seq<Question>, i: int, id: Seq<char>)
    requires
        unique_ids(qs),
        0 <= i < qs.len(),
        qs[i].id@ == id,
    ensures
        lookup_last(qs, id) == Some(qs[i]),
    decreases qs.len(),
{
    if i == qs.len() - 1 {
    } else {
        assert(qs.last().id@ != id);
        assert(qs.drop_last()[i] == qs[i]);
        lemma_lookup_found(qs.drop_last(), i, id);
    }
}

proof fn lemma_lookup_absent(qs: Seq<Question>, id: Seq<char>)
    requires
        forall|i: int| 0 <= i < qs.len() ==> (#[trigger] qs[i]).id@ != id,
    ensures
        lookup_last(qs, id) is None,
    decreases qs.len(),
{
    if qs.len() > 0 {
        lemma_lookup_absent(qs.drop_last(), id);
    }
}

/// Loaded question records, keyed by id.
pub struct MarketRegistry {
    questions: Vec<Question>,
}

impl View for MarketRegistry {
    type V = Seq<Question>;

    closed spec fn view(&self) -> Seq<Question> {
        self.questions@
    }
}

impl MarketRegistry {
    /// Each id appears at most once.
    pub open spec fn wf(self) -> bool {
        unique_ids(self@)
    }

    /// Record the question unless a record with its id is already
    /// present; used while folding sources from the latest backwards.
    fn insert_if_absent(&mut self, q: Question)
        requires
            old(self).wf(),
        ensures
            final(self).wf(),
            forall|id: Seq<char>| #![trigger lookup_last(final(self)@, id)]
                lookup_last(final(self)@, id) == if lookup_last(old(self)@, q.id@) is None && id == q.id@ {
                    Some(q)
                } else {
                    lookup_last(old(self)@, id)
                },
    {
        let n = self.questions.len();
        let mut i: usize = 0;
        while i < n
            invariant
                self == old(self),
                self.wf(),
                n == self.questions.len(),
                0 <= i <= n,
                forall|j: int| 0 <= j < i ==> (#[trigger] self.questions@[j]).id@ != q.id@,
            decreases n - i,
        {
            if str_eq(self.questions[i].id.as_str(), q.id.as_str()) {
                proof {
                    lemma_lookup_found(self@, i as int, q.id@);
                }
                return ;
            }
            i = i + 1;
        }
        proof {
            lemma_lookup_absent(self@, q.id@);
        }
        let ghost pre = self@;
        self.questions.push(q);
        proof {
            assert forall|id: Seq<char>|
                #![trigger lookup_last(self@, id)]
                lookup_last(self@, id) == if id == q.id@ {
                    Some(q)
                } else {
                    lookup_last(pre, id)
                } by {
                lemma_lookup_push(pre, q, id);
            }
        }
    }

    /// Load question records from an ordered list of sources: if an id
    /// appears in an earlier and a later source (or twice in one), the
    /// later record replaces the earlier one, with no field-level
    /// merge.
    pub fn load(sources: Vec<Vec<Question>>) -> (r: MarketRegistry)
        ensures
            r.wf(),
            forall|id: Seq<char>| #![trigger lookup_last(r@, id)]
                lookup_last(r@, id) == merged_lookup(sources_view(sources@), id),
    {
        let ghost all: Seq<Question> = sources_view(sources@).flatten();
        let mut reg = MarketRegistry { questions: Vec::new() };
        let mut srcs = sources;
        proof {
            assert(lookup_last(reg@, Seq::<char>::empty()) is None);
        }
        while srcs.len() > 0
            invariant
                reg.wf(),
                forall|id: Seq<char>| #![trigger lookup_last(all, id)]
                    lookup_last(all, id) == if lookup_last(reg@, id) is Some {
                        lookup_last(reg@, id)
                    } else {
                        lookup_last(sources_view(srcs@).flatten(), id)
                    },
            decreases srcs.len(),
        {
            let ghost srcs_pre = srcs@;
            let mut src = match srcs.pop() {
                Some(s) => s,
                None => {
                    proof {
                        assert(false);
                    }
                    Vec::new()
                },
            };
            proof {
                assert(srcs_pre =~= srcs@.push(src));
                assert(sources_view(srcs_pre) =~= sources_view(srcs@).push(src@));
                Seq::lemma_flatten_push(sources_view(srcs@), src@);
                assert(sources_view(srcs_pre).flatten() == sources_view(srcs@).flatten() + src@);
            }
            while src.len() > 0
                invariant
                    reg.wf(),
                    forall|id: Seq<char>| #![trigger lookup_last(all, id)]
                        lookup_last(all, id) == if lookup_last(reg@, id) is Some {
                            lookup_last(reg@, id)
                        } else {
                            lookup_last(sources_view(srcs@).flatten() + src@, id)
                        },
                decreases src.len(),
            {
                let ghost rest = sources_view(srcs@).flatten() + src@;
                let q = match src.pop() {
                    Some(q) => q,
                    None => {
                        proof {
                            assert(false);
                        }
                        return MarketRegistry { questions: Vec::new() };
                    },
                };
                proof {
                    let rest2 = sources_view(srcs@).flatten() + src@;
                    assert(rest =~= rest2.push(q));
                    assert forall|id: Seq<char>|
                        lookup_last(rest, id) == if id == q.id@ {
                            Some(q)
                        } else {
                            lookup_last(rest2, id)
                        } by {
                        lemma_lookup_push(rest2, q, id);
                    }
                }
                reg.insert_if_absent(q);
            }
            proof {
                assert(sources_view(srcs@).flatten() + src@ =~= sources_view(srcs@).flatten());
            }
        }
        proof {
            assert(sources_view(srcs@) =~= Seq::<Seq<Question>>::empty());
            assert(sources_view(srcs@).flatten() =~= Seq::<Question>::empty());
            assert forall|id: Seq<char>| #![trigger lookup_last(reg@, id)]
                lookup_last(reg@, id) == merged_lookup(sources_view(sources@), id) by {
                assert(lookup_last(all, id) == if lookup_last(reg@, id) is Some {
                    lookup_last(reg@, id)
                } else {
                    lookup_last(sources_view(srcs@).flatten(), id)
                });
            }
        }
        reg
    }

    /// Look up the question owning an id.
    pub fn get(&self, id: &str) -> (r: Option<&Question>)
        requires
            self.wf(),
        ensures
            match r {
                Some(q) => lookup_last(self@, id@) == Some(*q),
                None => lookup_last(self@, id@) is None,
            },
    {
        let n = self.questions.len();
        let mut i: usize = 0;
        while i < n
            invariant
                self.wf(),
                n == self.questions.len(),
                0 <= i <= n,
                forall|j: int| 0 <= j < i ==> (#[trigger] self.questions@[j]).id@ != id@,
            decreases n - i,
        {
            if str_eq(self.questions[i].id.as_str(), id) {
                proof {
                    lemma_lookup_found(self@, i as int, id@);
                }
                return Some(&self.questions[i]);
            }
            i = i + 1;
        }
        proof {
            lemma_lookup_absent(self@, id@);
        }
        None
    }
}

/// Later sources take precedence: whatever an added final source
/// answers for an id, the merge of the whole list answers the same
/// wherever the final source holds the id at all.
pub proof fn lemma_later_source_wins(sources: Seq<Seq<Question>>, last: Seq<Question>, id: Seq<char>)
    requires
        lookup_last(last, id) is Some,
    ensures
        merged_lookup(sources.push(last), id) == lookup_last(last, id),
    decreases last.len(),
{
    Seq::lemma_flatten_push(sources, last);
    lemma_lookup_concat(sources.flatten(), last, id);
}

proof fn lemma_lookup_concat(a: Seq<Question>, b: Seq<Question>, id: Seq<char>)
    ensures
        lookup_last(a + b, id) == if lookup_last(b, id) is Some {
            lookup_last(b, id)
        } else {
            lookup_last(a, id)
        },
    decreases b.len(),
{
    if b.len() == 0 {
        assert(a + b =~= a);
    } else {
        assert((a + b).last() == b.last());
        assert((a + b).drop_last() =~= a + b.drop_last());
        lemma_lookup_concat(a, b.drop_last(), id);
    }
}

} // verus!
