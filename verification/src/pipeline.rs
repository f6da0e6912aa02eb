//! The materializer's compute half: what to write, and where, once an
//! object's content has been retrieved.

use vstd::prelude::*;

use crate::content::is_utf8;
use crate::content::validate_text;
use crate::errors::StorageError;
use crate::path_map::map_parent_dir;
use crate::path_map::map_path;
use crate::path_map::map_path_spec;
use crate::path_map::parent_dir_spec;

verus! {

/// Everything the glue code needs to materialize one object: the directory
/// to create, the file path to write, and the exact bytes to put there.
pub struct MaterializePlan {
    pub dir_path: Vec<u8>,
    pub file_path: Vec<u8>,
    pub content: Vec<u8>,
}

/// Validates the retrieved bytes as text and maps the remote name to its
/// local place under the root. On success the plan's content is
/// byte-identical to the retrieved content — writing it and re-reading the
/// file yields exactly what the retriever produced — and its paths follow
/// the path mapper; content that is not well-formed text yields the decode
/// error and nothing is planned.
pub fn plan_materialize(name: &Vec<u8>, root: &Vec<u8>, bytes: Vec<u8>) -> (r: Result<
    MaterializePlan,
    StorageError,
>)
    ensures
        is_utf8(bytes@) ==> (r matches Ok(p) && p.file_path@ == map_path_spec(name@, root@)
            && p.dir_path@ == parent_dir_spec(name@, root@) && p.content@ == bytes@),
        !is_utf8(bytes@) ==> (r matches Err(e) && e is Decode),
{
    let content = match validate_text(bytes) {
        Ok(c) => c,
        Err(e) => {
            return Err(e);
        },
    };
    Ok(MaterializePlan {
        dir_path: map_parent_dir(name, root),
        file_path: map_path(name, root),
        content,
    })
}

} // verus!
