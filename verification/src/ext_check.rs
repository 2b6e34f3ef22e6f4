//! File-extension checking and renaming decisions: compare a file's stored
//! extension with the type inferred from its leading bytes, plan the rename
//! of a wrongly named file, and plan the content-addressed rename of a local
//! file.

use crate::point_id::{uuid_text, PointId};
use crate::structure::{
    ext_of, file_ext, file_stem, path_join, path_join_spec, stem_of, str_eq, FailedExtFile,
    TriageFile, WrongExtFile,
};
use vstd::prelude::*;

verus! {

/// The canonical extension of the file type inferred from leading bytes; a
/// function of the bytes alone, and absent when no known type matches.
pub uninterp spec fn infer_ext_of(bytes: Seq<u8>) -> Option<Seq<char>>;

/// Relies on infer::get: the matched file type, and so its canonical
/// extension, is a function of the leading bytes alone.
#[verifier::external_body]
fn infer_extension(bytes: &[u8]) -> (r: Option<String>)
    ensures
        match r {
            Some(s) => infer_ext_of(bytes@) == Some(s@),
            None => infer_ext_of(bytes@) is None,
        },
{
    infer::get(bytes).map(|k| k.extension().to_string())
}

/// Check one file's extension against the type its leading bytes infer.
/// An unreadable file and an unrecognised type are failures; a mismatched
/// extension yields the correction; a match yields nothing.
pub fn verify_single_ext(path: &String, read_result: Result<Vec<u8>, String>) -> (r: Option<
    TriageFile,
>)
    ensures
        match read_result {
            Err(e) => (match r {
                Some(TriageFile::Failed(f)) => f.path@ == path@ && f.error@ == "read error: "@
                    + e@,
                _ => false,
            }),
            Ok(buf) => match infer_ext_of(buf@) {
                None => (match r {
                    Some(TriageFile::Failed(f)) => f.path@ == path@ && f.error@
                        == "infer::get returned None"@,
                    _ => false,
                }),
                Some(t) => if t == ext_of(path@) {
                    r is None
                } else {
                    (match r {
                        Some(TriageFile::Wrong(w)) => w.path@ == path@ && w.expected_ext@ == t,
                        _ => false,
                    })
                },
            },
        },
{
    match read_result {
        Err(e) => {
            let prefix = String::from_str("read error: ");
            Some(
                TriageFile::Failed(
                    FailedExtFile { path: path.clone(), error: prefix.concat(e.as_str()) },
                ),
            )
        },
        Ok(buf) => {
            match infer_extension(buf.as_slice()) {
                None => Some(
                    TriageFile::Failed(
                        FailedExtFile {
                            path: path.clone(),
                            error: String::from_str("infer::get returned None"),
                        },
                    ),
                ),
                Some(inferred) => {
                    let ori = file_ext(path.as_str());
                    if str_eq(inferred.as_str(), ori) {
                        None
                    } else {
                        Some(
                            TriageFile::Wrong(
                                WrongExtFile { path: path.clone(), expected_ext: inferred },
                            ),
                        )
                    }
                },
            }
        },
    }
}

/// Plan the rename that corrects one wrongly named file: the new path keeps
/// the text before the first `'.'` and takes the expected extension. The
/// rename is skipped on a dry run or when the extension pair is listed to
/// skip.
pub fn plan_ext_rename(file: &WrongExtFile, skip_ext_pairs: &Vec<(String, String)>, dry_run: bool) -> (r:
    Option<String>)
    ensures
        ({
            let wrong = ext_of(file.path@);
            let skipped = exists|k: int|
                0 <= k < skip_ext_pairs@.len() && (#[trigger] skip_ext_pairs@[k]).0@ == wrong
                    && skip_ext_pairs@[k].1@ == file.expected_ext@;
            if dry_run || skipped {
                r is None
            } else {
                (match r {
                    Some(dst) => dst@ == stem_of(file.path@) + "."@ + file.expected_ext@,
                    None => false,
                })
            }
        }),
{
    let wrong = file_ext(file.path.as_str());
    let mut k: usize = 0;
    let mut skipped = false;
    let ghost wrong_view = ext_of(file.path@);
    while k < skip_ext_pairs.len() && !skipped
        invariant
            k <= skip_ext_pairs@.len(),
            wrong@ == wrong_view,
            !skipped ==> forall|t: int|
                0 <= t < k ==> !((#[trigger] skip_ext_pairs@[t]).0@ == wrong_view
                    && skip_ext_pairs@[t].1@ == file.expected_ext@),
            skipped ==> exists|t: int|
                0 <= t < skip_ext_pairs@.len() && (#[trigger] skip_ext_pairs@[t]).0@ == wrong_view
                    && skip_ext_pairs@[t].1@ == file.expected_ext@,
        decreases skip_ext_pairs@.len() - k, (if skipped {
            0int
        } else {
            1int
        }),
    {
        if str_eq(skip_ext_pairs[k].0.as_str(), wrong) && str_eq(
            skip_ext_pairs[k].1.as_str(),
            file.expected_ext.as_str(),
        ) {
            skipped = true;
        } else {
            k = k + 1;
        }
    }
    if dry_run || skipped {
        return None;
    }
    let stem = file_stem(file.path.as_str());
    let mut dst = String::new();
    dst.append(stem);
    proof {
        reveal_strlit(".");
    }
    dst.append(".");
    dst.append(file.expected_ext.as_str());
    Some(dst)
}

/// Plan the content-addressed rename of one local file: the target name is
/// the deterministic identifier of the file's bytes, with the source
/// extension, corrected to the inferred extension when checking finds a
/// mismatch. With checking on, an unrecognisable file is refused.
pub fn plan_content_rename(
    dst_dir: &String,
    id: PointId,
    src_ext: &String,
    contents: &Vec<u8>,
    check_ext: bool,
) -> (r: Option<(String, Option<WrongExtFile>)>)
    ensures
        ({
            let base = uuid_text(id.value);
            match r {
                Some(plan) => {
                    &&& (if check_ext {
                        match infer_ext_of(contents@) {
                            Some(t) => if t == src_ext@ {
                                plan.0@ == path_join_spec(dst_dir@, base + "."@ + src_ext@)
                                    && plan.1 is None
                            } else {
                                plan.0@ == path_join_spec(dst_dir@, base + "."@ + t) && (match plan.1 {
                                    Some(w) => w.path@ == plan.0@ && w.expected_ext@ == t,
                                    None => false,
                                })
                            },
                            None => false,
                        }
                    } else {
                        plan.0@ == path_join_spec(dst_dir@, base + "."@ + src_ext@) && plan.1 is None
                    })
                },
                None => check_ext && infer_ext_of(contents@) is None,
            }
        }),
{
    let base = id.hyphenated();
    proof {
        reveal_strlit(".");
    }
    if check_ext {
        match infer_extension(contents.as_slice()) {
            None => None,
            Some(inferred) => {
                if str_eq(inferred.as_str(), src_ext.as_str()) {
                    let name = base.concat(".").concat(src_ext.as_str());
                    Some((path_join(dst_dir.as_str(), name.as_str()), None))
                } else {
                    let name = base.concat(".").concat(inferred.as_str());
                    let dst = path_join(dst_dir.as_str(), name.as_str());
                    let w = WrongExtFile { path: dst.clone(), expected_ext: inferred };
                    Some((dst, Some(w)))
                }
            },
        }
    } else {
        let name = base.concat(".").concat(src_ext.as_str());
        Some((path_join(dst_dir.as_str(), name.as_str()), None))
    }
}

} // verus!
