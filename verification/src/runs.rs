//! Names inside a run directory: estimator identifiers and the outputs scored under them.

use vstd::prelude::*;

verus! {

/// A character allowed in an estimator identifier: an ASCII letter or digit, `-` or `_`.
pub open spec fn id_char(c: char) -> bool {
    ('a' <= c && c <= 'z') || ('A' <= c && c <= 'Z') || ('0' <= c && c <= '9') || c == '-' || c == '_'
}

/// A usable estimator identifier: non-empty, of allowed characters only.
pub open spec fn valid_estimator_id(id: Seq<char>) -> bool {
    id.len() > 0 && forall|i: int| 0 <= i < id.len() ==> id_char(#[trigger] id[i])
}

/// Checks an estimator identifier, which names files and directories of a run.
pub fn check_estimator_id(id: &str) -> (r: Result<(), String>)
    ensures
        r is Ok <==> valid_estimator_id(id@),
        r matches Err(e) ==> e@ == "estimator ID must contain only ASCII letters, numbers, '-' and '_'"@,
{
    let chars = crate::text::chars_of(id);
    let mut ok = chars.len() > 0;
    let mut i: usize = 0;
    while i < chars.len()
        invariant
            chars@ == id@,
            0 <= i <= chars@.len(),
            ok == (chars@.len() > 0 && forall|j: int| 0 <= j < i ==> id_char(#[trigger] chars@[j])),
        decreases chars@.len() - i,
    {
        let c = chars[i];
        let allowed = ('a' <= c && c <= 'z') || ('A' <= c && c <= 'Z') || ('0' <= c && c <= '9') || c == '-' || c == '_';
        ok = ok && allowed;
        i = i + 1;
    }
    if ok {
        Ok(())
    } else {
        proof { reveal_strlit("estimator ID must contain only ASCII letters, numbers, '-' and '_'"); }
        Err(String::from_str("estimator ID must contain only ASCII letters, numbers, '-' and '_'"))
    }
}

/// Where the estimates scored under `id` are stored in a run: `estimates/<id>.mcap`.
pub fn estimate_relative_path(id: &str) -> (p: String)
    ensures
        p@ == "estimates/"@ + id@ + ".mcap"@,
{
    let mut p = String::from_str("estimates/");
    p.append(id);
    p.append(".mcap");
    proof {
        reveal_strlit("estimates/");
        reveal_strlit(".mcap");
    }
    p
}

/// Where the reports of the estimates scored under `id` are stored: `reports/<id>`.
pub fn report_relative_path(id: &str) -> (p: String)
    ensures
        p@ == "reports/"@ + id@,
{
    let mut p = String::from_str("reports/");
    p.append(id);
    proof { reveal_strlit("reports/"); }
    p
}


/// `child` inside the directory `base`: joined with `/` unless `base` is empty or already
/// ends with `/`.
pub open spec fn joined(base: Seq<char>, child: Seq<char>) -> Seq<char> {
    if base.len() == 0 || base.last() == '/' { base + child } else { base + "/"@ + child }
}

/// `child` inside the directory `base`.
pub fn path_within(base: &str, child: &str) -> (p: String)
    ensures
        p@ == joined(base@, child@),
{
    let chars = crate::text::chars_of(base);
    let mut p = String::from_str(base);
    if chars.len() > 0 && chars[chars.len() - 1] != '/' {
        p.append("/");
        proof { reveal_strlit("/"); }
    }
    p.append(child);
    p
}

/// Where a run's dashboard is stored: `reports/baseline/visualization.rrd` inside the run.
pub fn default_visualization_path(run: &str) -> (p: String)
    ensures
        p@ == joined(run@, "reports/baseline/visualization.rrd"@),
{
    path_within(run, "reports/baseline/visualization.rrd")
}

} // verus!
