//! Decisions of the upload endpoint: which form field holds the file, what an
//! incomplete upload is answered, and what a migrated upload is answered.
use vstd::prelude::*;

use vstd::utf8::{decode_utf8, valid_utf8};

use crate::error::MigrateError;
use crate::migrator::string_from_utf8;
use crate::paths::last_dot;
use crate::text::{count_lines, line_count};

verus! {

/// Whether a form field with this name carries the uploaded file: its name is
/// `file`.
pub fn is_upload_field(name: Option<&str>) -> (r: bool)
    ensures
        r == (name matches Some(n) && n@ == "file"@),
{
    match name {
        Some(n) => crate::text::same_text(n, "file"),
        None => false,
    }
}

/// What the scan of an upload's form fields does with the next field.
#[derive(Debug, Clone, Copy, PartialEq, Eq, Structural)]
pub enum FieldStep {
    /// Not the file: go on to the next field.
    Skip,
    /// The file: take its name and data, and read no further field.
    TakeAndStop,
}

/// The step of the field scan for a field with this name: the first field
/// named `file` is taken and ends the scan; every other field is skipped.
pub fn field_step(name: Option<&str>) -> (r: FieldStep)
    ensures
        r == (if (name matches Some(n) && n@ == "file"@) {
            FieldStep::TakeAndStop
        } else {
            FieldStep::Skip
        }),
{
    if is_upload_field(name) {
        FieldStep::TakeAndStop
    } else {
        FieldStep::Skip
    }
}

/// The name of the TypeScript output for an uploaded file name: the text
/// before its last `.` with `.ts`, or the whole name with `.ts` when it has no `.`.
pub open spec fn output_name_text(file_name: Seq<char>) -> Seq<char> {
    match last_dot(file_name) {
        Some(i) => file_name.take(i) + ".ts"@,
        None => file_name + ".ts"@,
    }
}

/// The name of the TypeScript output for an uploaded file name.
pub fn output_name_for(file_name: &str) -> (r: String)
    ensures
        r@ == output_name_text(file_name@),
{
    let n = file_name.unicode_len();
    let mut j: usize = n;
    proof {
        assert(file_name@.take(n as int) =~= file_name@);
    }
    while j > 0
        invariant
            j <= n == file_name@.len(),
            last_dot(file_name@) == last_dot(file_name@.take(j as int)),
        decreases j,
    {
        let c = file_name.get_char(j - 1);
        proof {
            let t = file_name@.take(j as int);
            assert(t.last() == c);
            assert(t.drop_last() =~= file_name@.take(j - 1));
        }
        if c == '.' {
            let mut r = file_name.substring_char(0, j - 1).to_owned();
            r.append(".ts");
            proof {
                assert(file_name@.subrange(0, j - 1) =~= file_name@.take(j - 1));
            }
            return r;
        }
        j = j - 1;
    }
    proof {
        assert(file_name@.take(0) =~= Seq::<char>::empty());
    }
    let mut r = file_name.to_owned();
    r.append(".ts");
    r
}

/// Checks that an upload has a file name and file data, in that order.
pub fn check_upload(file_name: Option<String>, data: Option<Vec<u8>>) -> (r: Result<
    (String, Vec<u8>),
    MigrateError,
>)
    ensures
        file_name is None ==> r == Err::<(String, Vec<u8>), MigrateError>(
            MigrateError::MissingFileName,
        ),
        file_name is Some && data is None ==> r == Err::<(String, Vec<u8>), MigrateError>(
            MigrateError::MissingFileData,
        ),
        file_name is Some && data is Some ==> r is Ok && r->Ok_0.0@ == file_name->0@
            && r->Ok_0.1@ == data->0@,
{
    match file_name {
        None => Err(MigrateError::MissingFileName),
        Some(name) => match data {
            None => Err(MigrateError::MissingFileData),
            Some(bytes) => Ok((name, bytes)),
        },
    }
}

/// The text of uploaded file data; fails with `InvalidUtf8` exactly when the
/// data is not UTF-8.
pub fn decode_upload(data: Vec<u8>) -> (r: Result<String, MigrateError>)
    ensures
        r is Ok == valid_utf8(data@),
        r matches Ok(s) ==> s@ == decode_utf8(data@),
        r is Err ==> r->Err_0 == MigrateError::InvalidUtf8,
{
    match string_from_utf8(data) {
        Some(s) => Ok(s),
        None => Err(MigrateError::InvalidUtf8),
    }
}

/// The answer to a migrated upload.
pub struct MigrateResponse {
    /// The generated TypeScript.
    pub content: String,
    pub var_count: usize,
    pub line_count: usize,
    /// The name of the TypeScript output file.
    pub output_name: String,
}

/// The answer to the upload `file_name` with text `source`, for which
/// `content` was generated from `var_count` declarations.
pub fn build_response(file_name: &str, source: &str, content: String, var_count: usize) -> (r:
    MigrateResponse)
    ensures
        r.content@ == content@,
        r.var_count == var_count,
        r.line_count == line_count(source@),
        r.output_name@ == output_name_text(file_name@),
{
    let line_count = count_lines(source);
    let output_name = output_name_for(file_name);
    MigrateResponse { content, var_count, line_count, output_name }
}

} // verus!
