use vstd::prelude::*;

verus! {

/// What a path taken from the environment must point to.
#[derive(Clone, Copy, Debug, PartialEq, Eq, Structural)]
pub enum FileType {
    Directory,
    File,
}

/// Whether a path with the given properties is accepted for `kind`: it must
/// be absolute and point to an existing entry of that kind.
pub open spec fn path_accepted(kind: FileType, is_dir: bool, is_file: bool, is_absolute: bool) -> bool {
    is_absolute && match kind {
        FileType::Directory => is_dir,
        FileType::File => is_file,
    }
}

/// A path from the environment is accepted only when it is absolute; as a
/// directory exactly when it points to a directory, as a file exactly when
/// it points to a file.
pub proof fn lemma_path_accepted(kind: FileType, is_dir: bool, is_file: bool, is_absolute: bool)
    ensures
        !is_absolute ==> !path_accepted(kind, is_dir, is_file, is_absolute),
        is_absolute && kind == FileType::Directory ==> (path_accepted(kind, is_dir, is_file, is_absolute) <==> is_dir),
        is_absolute && kind == FileType::File ==> (path_accepted(kind, is_dir, is_file, is_absolute) <==> is_file),
{
}

/// The message for a path from the environment variable `variable` that is
/// refused for `kind`.
pub open spec fn path_message(kind: FileType, variable: Seq<char>) -> Seq<char> {
    "`"@ + variable + "`: value must be an absolute path pointing to an existing "@ + match kind {
        FileType::Directory => "directory"@,
        FileType::File => "file"@,
    }
}

/// Decides whether a path that the environment variable `variable` names may
/// be used as a `kind`, given what the file system says of it.
pub fn check_path(kind: FileType, variable: &str, is_dir: bool, is_file: bool, is_absolute: bool) -> (r: Result<(), String>)
    ensures
        r is Ok <==> path_accepted(kind, is_dir, is_file, is_absolute),
        r matches Err(m) ==> m@ == path_message(kind, variable@),
{
    let fits = match kind {
        FileType::Directory => is_dir,
        FileType::File => is_file,
    };
    if fits && is_absolute {
        Ok(())
    } else {
        let what = match kind {
            FileType::Directory => "directory",
            FileType::File => "file",
        };
        let mut m = crate::text::concat3("`", variable, "`: value must be an absolute path pointing to an existing ");
        crate::text::push_str(&mut m, what);
        proof {
            reveal_strlit("directory");
            reveal_strlit("file");
        }
        Err(m)
    }
}

} // verus!
