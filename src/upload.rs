use vstd::prelude::*;

verus! {

/// What follows the wiki's answer to a sheet upload.
#[derive(Clone, Copy, Debug, PartialEq, Eq, Structural)]
pub enum UploadStep {
    /// The file is in place.
    Done,
    /// The wiki raised warnings: show them, and once the operator confirms,
    /// send the upload again ignoring them.
    Confirm,
    /// The answer is not one the wiki gives for an upload.
    Failed,
}

/// Whether `a` and `b` hold the same characters.
pub fn same_text(a: &str, b: &str) -> (r: bool)
    ensures
        r == (a@ == b@),
{
    let n = a.unicode_len();
    if n != b.unicode_len() {
        return false;
    }
    let mut i: usize = 0;
    while i < n
        invariant
            i <= n,
            n == a@.len(),
            n == b@.len(),
            forall|k: int| 0 <= k < i ==> a@[k] == b@[k],
        decreases n - i,
    {
        if a.get_char(i) != b.get_char(i) {
            return false;
        }
        i = i + 1;
    }
    assert(a@ =~= b@);
    true
}

/// The step after the wiki answered an upload with `result`: `Success` is
/// done; `Warning` waits for confirmation on a first upload and is done on
/// one sent again after confirmation; anything else fails.
pub fn upload_step(result: &str, confirmed: bool) -> (r: UploadStep)
    ensures
        result@ == "Success"@ ==> r == UploadStep::Done,
        result@ == "Warning"@ ==> r == if confirmed {
            UploadStep::Done
        } else {
            UploadStep::Confirm
        },
        result@ != "Success"@ && result@ != "Warning"@ ==> r == UploadStep::Failed,
{
    proof {
        reveal_strlit("Success");
        reveal_strlit("Warning");
        assert("Success"@ != "Warning"@) by {
            assert("Success"@[0] != "Warning"@[0]);
        }
    }
    if same_text(result, "Success") {
        UploadStep::Done
    } else if same_text(result, "Warning") {
        if confirmed {
            UploadStep::Done
        } else {
            UploadStep::Confirm
        }
    } else {
        UploadStep::Failed
    }
}

} // verus!
