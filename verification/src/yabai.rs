//! The window-management side of the library: the shape of a window
//! descriptor as the external tool reports it, picking the focused window
//! out of a window list, and the text of a grid-placement command argument.
//!
//! Launching the external tool and decoding its JSON output are I/O and stay
//! with the caller; the caller hands the library plain values, with each
//! geometry coordinate printed as its decimal text token.

use vstd::prelude::*;
use vstd::string::StringExecFns;
use crate::numtext::dec_spec;
use crate::numtext::u32_to_string;

verus! {

/// The mathematical value of a [`YabaiWindowFrame`].
#[verifier::ext_equal]
pub struct FrameModel {
    pub x_px: Seq<char>,
    pub y_px: Seq<char>,
    pub w: Seq<char>,
    pub h: Seq<char>,
}

/// A window's on-screen frame, each coordinate as its printed text token.
#[derive(Debug)]
pub struct YabaiWindowFrame {
    pub x_px: String,
    pub y_px: String,
    pub w: String,
    pub h: String,
}

impl View for YabaiWindowFrame {
    type V = FrameModel;

    open spec fn view(&self) -> FrameModel {
        FrameModel { x_px: self.x_px@, y_px: self.y_px@, w: self.w@, h: self.h@ }
    }
}

/// The mathematical value of a [`YabaiWindow`].
#[verifier::ext_equal]
pub struct WindowModel {
    pub id: u32,
    pub frame: FrameModel,
    pub has_focus: bool,
}

/// One window as the external tool describes it: identity, frame, and
/// whether it currently has focus.
#[derive(Debug)]
pub struct YabaiWindow {
    pub id: u32,
    pub frame: YabaiWindowFrame,
    pub has_focus: bool,
}

impl View for YabaiWindow {
    type V = WindowModel;

    open spec fn view(&self) -> WindowModel {
        WindowModel { id: self.id, frame: self.frame@, has_focus: self.has_focus }
    }
}

/// The first window of the list that has focus, if any.
pub open spec fn first_focused(s: Seq<WindowModel>) -> Option<WindowModel>
    decreases s.len(),
{
    if s.len() == 0 {
        None
    } else if s.first().has_focus {
        Some(s.first())
    } else {
        first_focused(s.drop_first())
    }
}

proof fn lemma_first_focused_at(s: Seq<WindowModel>, i: int)
    requires
        0 <= i < s.len(),
        s[i].has_focus,
        forall|k: int| 0 <= k < i ==> !(#[trigger] s[k]).has_focus,
    ensures
        first_focused(s) == Some(s[i]),
    decreases s.len(),
{
    if i > 0 {
        assert(!s.first().has_focus);
        lemma_first_focused_at(s.drop_first(), i - 1);
        assert(forall|k: int|
            0 <= k < s.drop_first().len() ==> #[trigger] s.drop_first()[k] == s[k + 1]);
    }
}

proof fn lemma_first_focused_none(s: Seq<WindowModel>)
    requires
        forall|k: int| 0 <= k < s.len() ==> !(#[trigger] s[k]).has_focus,
    ensures
        first_focused(s) is None,
    decreases s.len(),
{
    if s.len() > 0 {
        lemma_first_focused_none(s.drop_first());
    }
}

/// Pick the first focused window out of the tool's window list.  `None`
/// exactly when no window has focus — a fatal condition for the caller,
/// which then has no window to act on.
pub fn find_focused(windows: Vec<YabaiWindow>) -> (r: Option<YabaiWindow>)
    ensures
        match r {
            Some(w) => first_focused(windows@.map_values(|x: YabaiWindow| x@)) == Some(w@),
            None => first_focused(windows@.map_values(|x: YabaiWindow| x@)) is None,
        },
{
    let ghost models = windows@.map_values(|x: YabaiWindow| x@);
    let n = windows.len();
    let mut idx: usize = 0;
    while idx < n
        invariant
            n == windows@.len(),
            0 <= idx <= n,
            models == windows@.map_values(|x: YabaiWindow| x@),
            forall|k: int| 0 <= k < idx ==> !(#[trigger] models[k]).has_focus,
        decreases n - idx,
    {
        if windows[idx].has_focus {
            proof {
                assert(models[idx as int] == windows@[idx as int]@);
                lemma_first_focused_at(models, idx as int);
            }
            let mut taken = windows;
            let w = taken.remove(idx);
            return Some(w);
        }
        idx = idx + 1;
    }
    proof {
        lemma_first_focused_none(models);
    }
    None
}

/// The text of the tool's grid-placement argument:
/// `rows:columns:grid_x:grid_y:1:1`, the trailing `1:1` being the fixed
/// cell span.
pub open spec fn grid_arg_of(rows: u32, columns: u32, grid_x: u32, grid_y: u32) -> Seq<char> {
    dec_spec(rows as int) + seq![':'] + dec_spec(columns as int) + seq![':'] + dec_spec(
        grid_x as int,
    ) + seq![':'] + dec_spec(grid_y as int) + seq![':', '1', ':', '1']
}

/// Print the grid-placement argument for a cell.
pub fn grid_command_argument(rows: u32, columns: u32, grid_x: u32, grid_y: u32) -> (r: String)
    ensures
        r@ == grid_arg_of(rows, columns, grid_x, grid_y),
{
    proof {
        reveal_strlit(":");
        reveal_strlit(":1:1");
        assert(":"@ =~= seq![':']);
        assert(":1:1"@ =~= seq![':', '1', ':', '1']);
    }
    let mut out = u32_to_string(rows);
    out.append(":");
    let columns_txt = u32_to_string(columns);
    out.append(columns_txt.as_str());
    out.append(":");
    let gx_txt = u32_to_string(grid_x);
    out.append(gx_txt.as_str());
    out.append(":");
    let gy_txt = u32_to_string(grid_y);
    out.append(gy_txt.as_str());
    out.append(":1:1");
    out
}

} // verus!
