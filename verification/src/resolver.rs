//! Outcome resolution: the ordered decision table that maps a raw
//! resolution record and an optional answer selector to a verdict.

use vstd::prelude::*;

use crate::strutil::str_eq;
use crate::types::{Question, ResolutionValue, Verdict};

verus! {

/// View of an optional answer selector.
pub open spec fn opt_str_view(a: Option<&str>) -> Option<Seq<char>> {
    match a {
        Some(s) => Some(s@),
        None => None,
    }
}

/// The literal selector value `"undefined"` stands for no selector.
pub open spec fn normalize_answer(ans: Option<Seq<char>>) -> Option<Seq<char>> {
    if ans == Some("undefined"@) {
        None
    } else {
        ans
    }
}

/// The decision table over a string resolution and a normalized
/// answer selector, evaluated in order:
/// `"YES"` / `"NO"` without a selector give a definite outcome;
/// `"CANCEL"`, an ambiguous `"CHOOSE_MULTIPLE"` with a selector, and a
/// market-based `"MKT"` without one are voided; a 12-character opaque
/// answer id together with a selector is a correctness check; any
/// other shape signals schema drift.
pub open spec fn table_verdict(res: Seq<char>, ans: Option<Seq<char>>) -> Verdict {
    if res == "YES"@ && ans is None {
        Verdict::Yes
    } else if res == "NO"@ && ans is None {
        Verdict::No
    } else if res == "CANCEL"@ {
        Verdict::Voided
    } else if res == "CHOOSE_MULTIPLE"@ && ans is Some {
        Verdict::Voided
    } else if res == "MKT"@ && ans is None {
        Verdict::Voided
    } else if res.len() == 12 && ans is Some {
        if Some(res) == ans {
            Verdict::Yes
        } else {
            Verdict::No
        }
    } else {
        Verdict::Invalid
    }
}

/// Verdict of a raw resolution record and an answer selector: no
/// record means the question is still open; a numeric record encodes
/// `0` as `"NO"` and `1` as `"YES"`, and any other numeric value is
/// invalid; a string record goes through the decision table.
pub open spec fn resolve_verdict(
    resolution: Option<ResolutionValue>,
    answer: Option<Seq<char>>,
) -> Verdict {
    let ans = normalize_answer(answer);
    match resolution {
        None => Verdict::Unresolved,
        Some(rv) => match rv {
            ResolutionValue::Text(s) => table_verdict(s@, ans),
            ResolutionValue::Numeric(n) => if n == 0 {
                table_verdict("NO"@, ans)
            } else if n == 1 {
                table_verdict("YES"@, ans)
            } else {
                Verdict::Invalid
            },
            ResolutionValue::NonIntegerNumeric => Verdict::Invalid,
            ResolutionValue::OtherShape => Verdict::Invalid,
        },
    }
}

/// Resolves a question's raw resolution record against an optional
/// answer selector.
pub fn resolve(q: &Question, answer: Option<&str>) -> (v: Verdict)
    ensures
        v == resolve_verdict(q.resolution, opt_str_view(answer)),
{
    let ans: Option<&str> = match answer {
        Some(s) => if str_eq(s, "undefined") {
            None
        } else {
            Some(s)
        },
        None => None,
    };
    proof {
        assert(opt_str_view(ans) == normalize_answer(opt_str_view(answer)));
    }
    let res_str: &str = match &q.resolution {
        None => {
            return Verdict::Unresolved;
        },
        Some(ResolutionValue::Text(s)) => s.as_str(),
        Some(ResolutionValue::Numeric(n)) => {
            if *n == 0 {
                "NO"
            } else if *n == 1 {
                "YES"
            } else {
                return Verdict::Invalid;
            }
        },
        Some(ResolutionValue::NonIntegerNumeric) => {
            return Verdict::Invalid;
        },
        Some(ResolutionValue::OtherShape) => {
            return Verdict::Invalid;
        },
    };
    let ans_present = ans.is_some();
    if str_eq(res_str, "YES") && !ans_present {
        Verdict::Yes
    } else if str_eq(res_str, "NO") && !ans_present {
        Verdict::No
    } else if str_eq(res_str, "CANCEL") {
        Verdict::Voided
    } else if str_eq(res_str, "CHOOSE_MULTIPLE") && ans_present {
        Verdict::Voided
    } else if str_eq(res_str, "MKT") && !ans_present {
        Verdict::Voided
    } else if res_str.unicode_len() == 12 && ans_present {
        let sel = match ans {
            Some(sel) => sel,
            None => {
                proof {
                    assert(false);
                }
                ""
            },
        };
        if str_eq(res_str, sel) {
            Verdict::Yes
        } else {
            Verdict::No
        }
    } else {
        Verdict::Invalid
    }
}

/// No shape of input escapes the decision rules, and none is decided
/// twice: `resolve_verdict` answers as each rule says on that rule's
/// inputs, and an input no rule covers comes out invalid.
pub proof fn lemma_decision_table(resolution: Option<ResolutionValue>, answer: Option<Seq<char>>)
    ensures
        ({
            let ans = normalize_answer(answer);
            let v = resolve_verdict(resolution, answer);
            match resolution {
                None => v == Verdict::Unresolved,
                Some(rv) => match rv {
                    ResolutionValue::Text(s) => {
                        &&& (s@ == "YES"@ && ans is None ==> v == Verdict::Yes)
                        &&& (s@ == "NO"@ && ans is None ==> v == Verdict::No)
                        &&& (s@ == "CANCEL"@ ==> v == Verdict::Voided)
                        &&& (s@ == "CHOOSE_MULTIPLE"@ && ans is Some ==> v == Verdict::Voided)
                        &&& (s@ == "MKT"@ && ans is None ==> v == Verdict::Voided)
                        &&& (s@ != "YES"@ && s@ != "NO"@ && s@ != "CANCEL"@ && s@ != "MKT"@
                            && s@.len() == 12 && ans is Some ==> v == (if Some(s@) == ans {
                            Verdict::Yes
                        } else {
                            Verdict::No
                        }))
                        &&& (!(s@ == "YES"@ && ans is None) && !(s@ == "NO"@ && ans is None) && s@
                            != "CANCEL"@ && !(s@ == "CHOOSE_MULTIPLE"@ && ans is Some) && !(s@
                            == "MKT"@ && ans is None) && !(s@.len() == 12 && ans is Some) ==> v
                            == Verdict::Invalid)
                    },
                    ResolutionValue::Numeric(n) => {
                        &&& (n == 0 && ans is None ==> v == Verdict::No)
                        &&& (n == 1 && ans is None ==> v == Verdict::Yes)
                        &&& ((n == 0 || n == 1) && ans is Some ==> v == Verdict::Invalid)
                        &&& (n != 0 && n != 1 ==> v == Verdict::Invalid)
                    },
                    ResolutionValue::NonIntegerNumeric => v == Verdict::Invalid,
                    ResolutionValue::OtherShape => v == Verdict::Invalid,
                },
            }
        }),
{
    reveal_strlit("YES");
    reveal_strlit("NO");
    reveal_strlit("CANCEL");
    reveal_strlit("CHOOSE_MULTIPLE");
    reveal_strlit("MKT");
    assert("YES"@.len() == 3);
    assert("NO"@.len() == 2);
    assert("CANCEL"@.len() == 6);
    assert("CHOOSE_MULTIPLE"@.len() == 15);
    assert("MKT"@.len() == 3);
    assert("YES"@[0] == 'Y' && "MKT"@[0] == 'M');
}

} // verus!
