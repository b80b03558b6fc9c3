//! SPF record classification: which of a domain's TXT records are SPF
//! records, and whether any exist. Resolving the TXT records is network
//! work that lives with the surrounding program; the classification of
//! whatever came back is verified here.

use vstd::prelude::*;

use crate::seq_facts::lemma_filter_push;
use crate::strutil::{has_prefix, spec_has_prefix};

verus! {

/// A domain whose SPF records are to be looked up.
#[derive(Debug)]
pub struct SpfToCheck {
    pub domain: String,
}

/// The outcome: the SPF records found, and whether there was any.
pub struct SpfCheckResult {
    pub result: bool,
    pub records: Vec<String>,
}

/// An SPF record is a TXT record that starts with the SPF version tag.
pub open spec fn spec_is_spf_record() -> spec_fn(Seq<char>) -> bool {
    |s: Seq<char>| spec_has_prefix(s, "v=spf1"@)
}

/// Classifies a domain's TXT records: keeps exactly the SPF records, in
/// order, and reports whether any was found.
pub fn evaluate_records(records: &Vec<String>) -> (r: SpfCheckResult)
    ensures
        r.records.deep_view() == records.deep_view().filter(spec_is_spf_record()),
        r.result == (r.records.deep_view().len() != 0),
{
    let ghost pred = spec_is_spf_record();
    let n = records.len();
    let mut kept: Vec<String> = Vec::new();
    let mut i: usize = 0;
    proof {
        assert(kept.deep_view() =~= records.deep_view().take(0).filter(pred));
    }
    while i < n
        invariant
            0 <= i <= n,
            n == records@.len(),
            n == records.deep_view().len(),
            pred == spec_is_spf_record(),
            kept.deep_view() == records.deep_view().take(i as int).filter(pred),
        decreases n - i,
    {
        proof {
            assert(records.deep_view()[i as int] == records@[i as int]@);
            assert(records.deep_view().take(i + 1) =~= records.deep_view().take(i as int).push(
                records.deep_view()[i as int],
            ));
            lemma_filter_push(records.deep_view().take(i as int), pred, records.deep_view()[
                i as int
            ]);
        }
        if has_prefix(records[i].as_str(), "v=spf1") {
            let ghost prevv = kept@;
            let ghost prevdeep = kept.deep_view();
            kept.push(records[i].clone());
            proof {
                assert forall|k: int|
                    0 <= k < kept@.len() implies kept.deep_view()[k] == records.deep_view().take(
                    i + 1,
                ).filter(pred)[k] by {
                    assert(kept.deep_view()[k] == kept@[k]@);
                    if k < prevv.len() {
                        assert(kept@[k] == prevv[k]);
                        assert(prevdeep[k] == prevv[k]@);
                    } else {
                        assert(kept@[k] == records@[i as int]);
                    }
                }
                assert(kept.deep_view() =~= records.deep_view().take(i + 1).filter(pred));
            }
        } else {
            proof {
                assert(kept.deep_view() =~= records.deep_view().take(i + 1).filter(pred));
            }
        }
        i = i + 1;
    }
    proof {
        assert(records.deep_view().take(n as int) =~= records.deep_view());
    }
    let any = kept.len() != 0;
    SpfCheckResult { result: any, records: kept }
}

} // verus!
