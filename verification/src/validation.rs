use vstd::prelude::*;

use crate::error::{invalid_argument, unit_error, ErrorView, RunnerError, StatusCode};
use crate::text::{chars_of, dotdot_at, has_char, has_dotdot, vec_has_char, vec_has_dotdot};

verus! {

/// The value names more than one path component, or a special one:
/// it is `.` or `..`, or it holds `/` or `\`.
pub open spec fn is_path_like(value: Seq<char>) -> bool {
    ||| value == seq!['.']
    ||| value == seq!['.', '.']
    ||| has_char(value, '/')
    ||| has_char(value, '\\')
}

/// The value may stand as one path component under the workspace or a run
/// directory: it is non-empty, not path-like, and holds no `..`.
pub open spec fn is_valid_component(value: Seq<char>) -> bool {
    value.len() > 0 && !is_path_like(value) && !has_dotdot(value)
}

/// What checking `value` as the path component `field` answers: nothing when
/// it is valid, else the first rule that it breaks.
pub open spec fn component_check(value: Seq<char>, field: Seq<char>) -> Option<ErrorView> {
    if value.len() == 0 {
        Some(invalid_argument(field + " must not be empty"@))
    } else if is_path_like(value) {
        Some(invalid_argument(field + " must be a single path component"@))
    } else if has_dotdot(value) {
        Some(invalid_argument(field + " must not contain '..'"@))
    } else {
        None
    }
}

/// A value passes the check exactly when it is a valid single path
/// component: non-empty, not `.` or `..`, without `/`, `\` or `..`.
pub proof fn lemma_component_check_ok(value: Seq<char>, field: Seq<char>)
    ensures
        component_check(value, field) is None <==> is_valid_component(value),
{
}

fn is_path_like_exec(v: &Vec<char>) -> (b: bool)
    ensures
        b == is_path_like(v@),
{
    let single_dot = v.len() == 1 && v[0] == '.';
    let double_dot = v.len() == 2 && v[0] == '.' && v[1] == '.';
    proof {
        if v@ == seq!['.'] {
            assert(v@.len() == 1 && v@[0] == '.');
        }
        if v@.len() == 1 && v@[0] == '.' {
            assert(v@ =~= seq!['.']);
        }
        if v@ == seq!['.', '.'] {
            assert(v@.len() == 2 && v@[0] == '.' && v@[1] == '.');
        }
        if v@.len() == 2 && v@[0] == '.' && v@[1] == '.' {
            assert(v@ =~= seq!['.', '.']);
        }
    }
    single_dot || double_dot || vec_has_char(v, '/') || vec_has_char(v, '\\')
}

fn validate_component(value: &str, field: &str) -> (res: Result<(), RunnerError>)
    ensures
        unit_error(res) == component_check(value@, field@),
{
    let chars = chars_of(value);
    if chars.len() == 0 {
        return Err(RunnerError::new(
            StatusCode::InvalidArgument,
            field.to_owned().concat(" must not be empty"),
        ));
    }
    // These values are used to form paths under the workspace or a run
    // directory: only a single path component is allowed.
    if is_path_like_exec(&chars) {
        return Err(RunnerError::new(
            StatusCode::InvalidArgument,
            field.to_owned().concat(" must be a single path component"),
        ));
    }
    if vec_has_dotdot(&chars) {
        return Err(RunnerError::new(
            StatusCode::InvalidArgument,
            field.to_owned().concat(" must not contain '..'"),
        ));
    }
    Ok(())
}

/// Checks a file name sent by a client.
pub fn validate_filename(name: &str) -> (res: Result<(), RunnerError>)
    ensures
        unit_error(res) == component_check(name@, "filename"@),
        res is Ok <==> is_valid_component(name@),
{
    validate_component(name, "filename")
}

/// Checks the file root handed to a model as its first argument.
pub fn validate_file_root(file_root: &str) -> (res: Result<(), RunnerError>)
    ensures
        unit_error(res) == component_check(file_root@, "file_root"@),
        res is Ok <==> is_valid_component(file_root@),
{
    validate_component(file_root, "file_root")
}

/// Checks a pipeline step id, which names the step's run directory.
pub fn validate_step_id(step_id: &str) -> (res: Result<(), RunnerError>)
    ensures
        unit_error(res) == component_check(step_id@, "step id"@),
        res is Ok <==> is_valid_component(step_id@),
{
    validate_component(step_id, "step id")
}

} // verus!

verus! {

/// `std::io::Error`, made known to the verifier as an opaque type so that
/// the run-directory checks can answer with one.
#[verifier::external_type_specification]
#[verifier::external_body]
pub struct ExIoError(std::io::Error);

/// What `std::io::Error::new(ErrorKind::InvalidInput, message)` returns.
pub uninterp spec fn io_invalid_input(message: Seq<char>) -> std::io::Error;

/// Wraps `std::io::Error::new` with the kind `InvalidInput`: the error holds
/// `message` as its payload. Its contract names the result and says no more.
#[verifier::external_body]
pub fn invalid_input(message: String) -> (e: std::io::Error)
    ensures
        e == io_invalid_input(message@),
{
    std::io::Error::new(std::io::ErrorKind::InvalidInput, message)
}

/// Checks a file name before it is written under a run directory, answering
/// with an I/O error of kind `InvalidInput` that carries the check's message.
pub fn validate_filename_for_io(name: &str) -> (res: Result<(), std::io::Error>)
    ensures
        res is Ok <==> is_valid_component(name@),
        res matches Err(e) ==> e == io_invalid_input(
            component_check(name@, "filename"@)->0.message,
        ),
{
    match validate_filename(name) {
        Ok(()) => Ok(()),
        Err(status) => Err(invalid_input(status.message)),
    }
}

/// The rule of the workspace RPCs for a file name: non-empty, and free of
/// `/`, `\` and `..`.
pub open spec fn workspace_filename_check(name: Seq<char>) -> Option<ErrorView> {
    if name.len() == 0 {
        Some(invalid_argument("filename must not be empty"@))
    } else if has_char(name, '/') || has_char(name, '\\') || has_dotdot(name) {
        Some(invalid_argument("filename must not contain '/', '\\', or '..'"@))
    } else {
        None
    }
}

/// The workspace RPCs accept exactly the non-empty file names in which no
/// character is `/` or `\` and no two consecutive characters are dots;
/// every refusal is `InvalidArgument`.
pub proof fn lemma_workspace_filename_rule(name: Seq<char>)
    ensures
        workspace_filename_check(name) is None <==> (name.len() > 0 && (forall|i: int|
            0 <= i < name.len() ==> name[i] != '/' && name[i] != '\\') && (forall|i: int, j: int|
            #![trigger name[i], name[j]]
            0 <= i && j == i + 1 && j < name.len() ==> !(name[i] == '.' && name[j] == '.'))),
        workspace_filename_check(name) matches Some(e) ==> e.code == StatusCode::InvalidArgument,
{
    if forall|i: int, j: int|
        #![trigger name[i], name[j]]
        0 <= i && j == i + 1 && j < name.len() ==> !(name[i] == '.' && name[j] == '.') {
        assert(!has_dotdot(name)) by {
            if has_dotdot(name) {
                let i = choose|i: int| #[trigger] dotdot_at(name, i);
                assert(!(name[i] == '.' && name[i + 1] == '.'));
            }
        }
    } else {
        let (i, j) = choose|i: int, j: int|
            #![trigger name[i], name[j]]
            0 <= i && j == i + 1 && j < name.len() && (name[i] == '.' && name[j] == '.');
        assert(dotdot_at(name, i));
    }
}

/// Checks a file name given to `UploadFile`, `GetFile` or `DeleteFile`.
pub fn validate_workspace_filename(name: &str) -> (res: Result<(), RunnerError>)
    ensures
        unit_error(res) == workspace_filename_check(name@),
{
    let chars = chars_of(name);
    if chars.len() == 0 {
        return Err(RunnerError::new(StatusCode::InvalidArgument, "filename must not be empty".to_owned()));
    }
    if vec_has_char(&chars, '/') || vec_has_char(&chars, '\\') || vec_has_dotdot(&chars) {
        return Err(RunnerError::new(
            StatusCode::InvalidArgument,
            "filename must not contain '/', '\\', or '..'".to_owned(),
        ));
    }
    Ok(())
}

} // verus!
