//! The desktop launcher ("Open With → Winnow") that the program can install.

use vstd::prelude::*;

verus! {

/// The file types the launcher offers to open: folders and images.
pub const MIME: &'static str = "inode/directory;image/jpeg;image/png;image/bmp;image/gif;image/tiff;image/webp;";

/// The launcher file for the program at `exe`.
pub open spec fn desktop_entry_of(exe: Seq<char>) -> Seq<char> {
    "[Desktop Entry]\nType=Application\nVersion=1.0\nName=Winnow\nGenericName=Image Culling Tool\nComment=Fast keyboard-driven image culling / selection\nExec="@
        + exe + " %f\nIcon=winnow\nTerminal=false\nCategories=Graphics;Viewer;2DGraphics;\nMimeType="@
        + MIME@ + "\n"@
}

/// The text of the launcher file for the program at `exe`.
pub fn desktop_entry(exe: &str) -> (r: String)
    ensures
        r@ == desktop_entry_of(exe@),
{
    let mut s = String::from_str(
        "[Desktop Entry]\nType=Application\nVersion=1.0\nName=Winnow\nGenericName=Image Culling Tool\nComment=Fast keyboard-driven image culling / selection\nExec=",
    );
    s.append(exe);
    s.append(" %f\nIcon=winnow\nTerminal=false\nCategories=Graphics;Viewer;2DGraphics;\nMimeType=");
    s.append(MIME);
    s.append("\n");
    s
}

} // verus!
