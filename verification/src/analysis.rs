//! The analysis pass, as far as the weaver deals with it: how it is called
//! for a pointcut, and which of the files it leaves behind are its reports.

use crate::config::PointCut;
use crate::text::{chars_of, ends_with, has_suffix};
use vstd::prelude::*;
use vstd::string::StringExecFns;

verus! {

/// What the name of every report ends with.
pub const ASPECT_OUTPUT_FILE: &'static str = "RUST_ASPECT_OUTPUT.txt";

/// The program that runs the analysis pass.
pub const ANALYSIS_PROGRAM: &'static str = "cargo";

/// Whether `path` names a report: whether it ends as the names of reports
/// do.
pub open spec fn is_report(path: Seq<char>) -> bool {
    ends_with(path, ASPECT_OUTPUT_FILE@)
}

/// The texts that the strings of `v` hold.
pub open spec fn texts_of(v: Seq<String>) -> Seq<Seq<char>> {
    v.map_values(|s: String| s@)
}

/// Of the files at `paths`, those that are reports, in the same order.
pub fn find_aop_output_file(paths: &Vec<String>) -> (r: Vec<String>)
    ensures
        texts_of(r@) == texts_of(paths@).filter(|p: Seq<char>| is_report(p)),
{
    let suffix = chars_of(ASPECT_OUTPUT_FILE);
    let mut out: Vec<String> = Vec::new();
    let mut i: usize = 0;
    let ghost all = texts_of(paths@);
    let ghost keep = |p: Seq<char>| is_report(p);
    proof {
        reveal(Seq::filter);
        assert(all.take(0) =~= Seq::<Seq<char>>::empty());
        assert(texts_of(out@) =~= all.take(0).filter(keep));
    }
    while i < paths.len()
        invariant
            i <= paths.len(),
            suffix@ == ASPECT_OUTPUT_FILE@,
            all == texts_of(paths@),
            keep == |p: Seq<char>| is_report(p),
            texts_of(out@) == all.take(i as int).filter(keep),
        decreases paths.len() - i,
    {
        let ghost before = texts_of(out@);
        proof {
            reveal(Seq::filter);
            assert(all.take(i + 1).drop_last() =~= all.take(i as int));
            assert(all.take(i + 1).last() == paths@[i as int]@);
        }
        if has_suffix(&chars_of(paths[i].as_str()), &suffix) {
            out.push(paths[i].clone());
            proof {
                assert(texts_of(out@) =~= before.push(paths@[i as int]@));
            }
        }
        i += 1;
    }
    proof {
        assert(all.take(paths.len() as int) =~= all);
    }
    out
}

/// What tells the analysis pass which places to report: `aop-inspect=`
/// and, in double quotes, the condition of the pointcut.
pub open spec fn inspect_argument_of(condition: Seq<char>) -> Seq<char> {
    "aop-inspect=\""@ + condition + "\""@
}

/// What tells the analysis pass which places to report.
pub fn inspect_argument(condition: &str) -> (r: String)
    ensures
        r@ == inspect_argument_of(condition@),
{
    let mut r = String::from_str("aop-inspect=\"");
    r.append(condition);
    r.append("\"");
    r
}

/// The arguments with which the analysis pass is run for `pc`: the toolchain
/// that knows the pass, the compiler behind `--`, and the condition of the
/// pointcut as an unstable option.
pub fn analysis_arguments(pc: &PointCut) -> (r: Vec<String>)
    ensures
        r@.len() == 5,
        r@[0]@ == "+AOP"@,
        r@[1]@ == "rustc"@,
        r@[2]@ == "--"@,
        r@[3]@ == "-Z"@,
        r@[4]@ == inspect_argument_of(pc.condition@),
{
    let mut r: Vec<String> = Vec::new();
    r.push(String::from_str("+AOP"));
    r.push(String::from_str("rustc"));
    r.push(String::from_str("--"));
    r.push(String::from_str("-Z"));
    r.push(inspect_argument(pc.condition.as_str()));
    r
}

} // verus!
