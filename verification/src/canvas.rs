//! Where the board layout lives: `.friday/canvas.json` inside the project. The layout
//! itself (positions, sizes, zoom) is floating point and is read and written outside the
//! library; this module fixes the files and the defaults that are not numbers.

use vstd::prelude::*;
use crate::paths::{is_separator, join_path, joined, law_join};

verus! {

/// The directory, inside a project, that holds the board.
pub open spec fn canvas_dir_spec(project_dir: Seq<char>) -> Seq<char> {
    joined(project_dir, ".friday"@)
}

/// The file that holds the board.
pub open spec fn canvas_path_spec(project_dir: Seq<char>) -> Seq<char> {
    joined(canvas_dir_spec(project_dir), "canvas.json"@)
}

/// The file a save writes first, before it renames it over the board file: the board file
/// with its extension `json` replaced by `json.tmp`.
pub open spec fn canvas_tmp_path_spec(project_dir: Seq<char>) -> Seq<char> {
    joined(canvas_dir_spec(project_dir), "canvas.json.tmp"@)
}

/// The kind a node has when the stored layout does not say: a terminal running codex.
pub fn codex_kind() -> (kind: String)
    ensures
        kind@ == "codex"@,
{
    String::from_str("codex")
}

/// The directory that holds the board; a save creates it first.
pub fn canvas_dir(project_dir: &str) -> (dir: String)
    ensures
        dir@ == canvas_dir_spec(project_dir@),
        dir@ == project_dir@ + separator_after(project_dir@) + ".friday"@,
{
    proof {
        law_board_location(project_dir@);
    }
    join_path(project_dir, ".friday")
}

/// The board file of the project in `project_dir`.
pub fn canvas_path(project_dir: &str) -> (path: String)
    ensures
        path@ == canvas_path_spec(project_dir@),
        path@ == project_dir@ + separator_after(project_dir@) + ".friday/canvas.json"@,
{
    proof {
        law_board_location(project_dir@);
    }
    let dir = join_path(project_dir, ".friday");
    join_path(dir.as_str(), "canvas.json")
}

/// The temporary file of an atomic save.
pub fn canvas_tmp_path(project_dir: &str) -> (path: String)
    ensures
        path@ == canvas_tmp_path_spec(project_dir@),
        path@ == project_dir@ + separator_after(project_dir@) + ".friday/canvas.json.tmp"@,
{
    proof {
        law_board_location(project_dir@);
    }
    let dir = join_path(project_dir, ".friday");
    join_path(dir.as_str(), "canvas.json.tmp")
}

/// The board file lies in the board directory, and the temporary file of a save lies
/// beside it, named as the board file with `.tmp` added, so that the rename that ends a
/// save stays within one directory.
pub proof fn law_save_files(project_dir: Seq<char>)
    ensures
        canvas_path_spec(project_dir) == joined(canvas_dir_spec(project_dir), "canvas.json"@),
        canvas_tmp_path_spec(project_dir) == canvas_path_spec(project_dir) + ".tmp"@,
        canvas_dir_spec(project_dir).is_prefix_of(canvas_path_spec(project_dir)),
{
    reveal_strlit("canvas.json");
    reveal_strlit("canvas.json.tmp");
    reveal_strlit(".tmp");
    let dir = canvas_dir_spec(project_dir);
    assert(!is_separator("canvas.json"@[0]));
    assert(!is_separator("canvas.json.tmp"@[0]));
    if dir.len() == 0 || is_separator(dir.last()) {
        assert(dir + "canvas.json.tmp"@ =~= dir + "canvas.json"@ + ".tmp"@);
        assert(dir =~= (dir + "canvas.json"@).subrange(0, dir.len() as int));
    } else {
        assert(dir + seq!['/'] + "canvas.json.tmp"@ =~= dir + seq!['/'] + "canvas.json"@ + ".tmp"@);
        assert(dir =~= (dir + seq!['/'] + "canvas.json"@).subrange(0, dir.len() as int));
    }
}

/// What goes between a project directory and the names inside it: one '/' where the
/// directory is non-empty and does not end in '/', nothing otherwise.
pub open spec fn separator_after(dir: Seq<char>) -> Seq<char> {
    if dir.len() > 0 && dir[dir.len() - 1] != '/' {
        seq!['/']
    } else {
        Seq::empty()
    }
}

/// Where the board of a project lives, for a project directory of any length: the board
/// directory is the project directory followed by `.friday` (with one '/' between them
/// where the project directory does not already end in one), so its last component is
/// `.friday` and its parent is the project directory; the board file is
/// `canvas.json` inside it, and the temporary file of a save is `canvas.json.tmp` beside
/// the board file.
pub proof fn law_board_location(project_dir: Seq<char>)
    ensures
        canvas_dir_spec(project_dir) == project_dir + separator_after(project_dir) + ".friday"@,
        canvas_path_spec(project_dir) == canvas_dir_spec(project_dir) + "/canvas.json"@,
        canvas_tmp_path_spec(project_dir) == canvas_dir_spec(project_dir) + "/canvas.json.tmp"@,
        canvas_path_spec(project_dir) == project_dir + separator_after(project_dir)
            + ".friday/canvas.json"@,
        canvas_tmp_path_spec(project_dir) == project_dir + separator_after(project_dir)
            + ".friday/canvas.json.tmp"@,
        project_dir.is_prefix_of(canvas_dir_spec(project_dir)),
{
    reveal_strlit(".friday");
    reveal_strlit("canvas.json");
    reveal_strlit("canvas.json.tmp");
    reveal_strlit("/canvas.json");
    reveal_strlit("/canvas.json.tmp");
    reveal_strlit(".friday/canvas.json");
    reveal_strlit(".friday/canvas.json.tmp");
    let p = project_dir;
    let sep = separator_after(p);
    law_join(p, ".friday"@);
    let dir = canvas_dir_spec(p);
    assert(dir =~= p + sep + ".friday"@);
    assert(dir.len() > 0 && dir[dir.len() - 1] == 'y');
    law_join(dir, "canvas.json"@);
    law_join(dir, "canvas.json.tmp"@);
    assert(canvas_path_spec(p) =~= dir + "/canvas.json"@);
    assert(canvas_tmp_path_spec(p) =~= dir + "/canvas.json.tmp"@);
    assert(canvas_path_spec(p) =~= p + sep + ".friday/canvas.json"@);
    assert(canvas_tmp_path_spec(p) =~= p + sep + ".friday/canvas.json.tmp"@);
    assert(p =~= dir.subrange(0, p.len() as int));
}

} // verus!
