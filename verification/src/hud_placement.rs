//! Which display the status window belongs to: the saved one while it is
//! connected, and after a drag, the display the window mostly covers.
use vstd::prelude::*;

use crate::library::same_ignoring_case;
use crate::ocr_language::lower_ascii;
use crate::text::{chars_of, same_chars};

verus! {

/// Width of the status window, in pixels.
pub const HUD_WIDTH: i32 = 296;

/// Height of the status window, in pixels.
pub const HUD_HEIGHT: i32 = 52;

/// A rectangle on the virtual desktop.
#[derive(Clone, Copy, Debug, PartialEq, Eq, Structural)]
pub struct Rect {
    pub x: i32,
    pub y: i32,
    pub width: i32,
    pub height: i32,
}

pub open spec fn right(r: Rect) -> int {
    r.x + r.width
}

pub open spec fn bottom(r: Rect) -> int {
    r.y + r.height
}

/// One display: its device name when the system gave one, its bounds, the
/// work area inside them, and whether it is the primary display.
#[derive(Clone, Debug, PartialEq, Eq)]
pub struct MonitorWorkArea {
    pub device_name: Option<String>,
    pub bounds: Rect,
    pub work: Rect,
    pub primary: bool,
}

/// The display is known by `name`, up to ASCII case.
pub open spec fn names_device(m: MonitorWorkArea, name: Seq<char>) -> bool {
    m.device_name matches Some(d) && same_ignoring_case(d@, name)
}

/// The display is the one a saved placement names.
pub open spec fn is_named(m: MonitorWorkArea, name: Option<Seq<char>>) -> bool {
    name matches Some(n) && names_device(m, n)
}

/// The display a saved placement lands on: the first named as saved, else
/// the first primary one, else the first; none when there is no display.
pub open spec fn preferred(monitors: Seq<MonitorWorkArea>, name: Option<Seq<char>>, r: Option<usize>) -> bool {
    match r {
        None => monitors.len() == 0,
        Some(i) => i < monitors.len() && if exists|j: int| 0 <= j < monitors.len() && is_named(#[trigger] monitors[j], name) {
            is_named(monitors[i as int], name) && forall|j: int| 0 <= j < i ==> !is_named(#[trigger] monitors[j], name)
        } else if exists|j: int| 0 <= j < monitors.len() && (#[trigger] monitors[j]).primary {
            monitors[i as int].primary && forall|j: int| 0 <= j < i ==> !(#[trigger] monitors[j]).primary
        } else {
            i == 0
        },
    }
}

/// Finds the display a saved placement lands on.
pub fn preferred_monitor(monitors: &[MonitorWorkArea], device_name: Option<&str>) -> (r: Option<usize>)
    ensures
        preferred(
            monitors@,
            match device_name {
                Some(n) => Some(n@),
                None => None,
            },
            r,
        ),
{
    let ghost name: Option<Seq<char>> = match device_name {
        Some(n) => Some(n@),
        None => None,
    };
    let n = monitors.len();
    if let Some(wanted) = device_name {
        let target = lower_ascii(chars_of(wanted).as_slice());
        let mut i: usize = 0;
        while i < n
            invariant
                n == monitors@.len(),
                i <= n,
                name == Some(wanted@),
                device_name == Some(wanted),
                target@ == crate::ocr_language::ascii_lowered(wanted@),
                forall|j: int| 0 <= j < i ==> !is_named(#[trigger] monitors@[j], name),
            decreases n - i,
        {
            let hit = match &monitors[i].device_name {
                Some(d) => {
                    let lowered = lower_ascii(chars_of(d.as_str()).as_slice());
                    same_chars(lowered.as_slice(), target.as_slice())
                },
                None => false,
            };
            if hit {
                assert(is_named(monitors@[i as int], name));
                return Some(i);
            }
            i = i + 1;
        }
    }
    assert(!exists|j: int| 0 <= j < monitors@.len() && is_named(#[trigger] monitors@[j], name));
    let mut i: usize = 0;
    while i < n
        invariant
            n == monitors@.len(),
            i <= n,
            name == (match device_name {
                Some(n) => Some(n@),
                None => None,
            }),
            !exists|j: int| 0 <= j < monitors@.len() && is_named(#[trigger] monitors@[j], name),
            forall|j: int| 0 <= j < i ==> !(#[trigger] monitors@[j]).primary,
        decreases n - i,
    {
        if monitors[i].primary {
            return Some(i);
        }
        i = i + 1;
    }
    if n > 0 {
        Some(0)
    } else {
        None
    }
}

/// How much of the window at `(x, y)` lies on the display, by width and
/// height; zero where it misses.
pub open spec fn overlap_area(m: Rect, x: int, y: int) -> int {
    let w = min_of(x + HUD_WIDTH, right(m)) - max_of(x, m.x as int);
    let h = min_of(y + HUD_HEIGHT, bottom(m)) - max_of(y, m.y as int);
    (if w > 0 {
        w
    } else {
        0
    }) * (if h > 0 {
        h
    } else {
        0
    })
}

pub open spec fn min_of(a: int, b: int) -> int {
    if a < b {
        a
    } else {
        b
    }
}

pub open spec fn max_of(a: int, b: int) -> int {
    if a > b {
        a
    } else {
        b
    }
}

/// `v` moved into `lo..=hi`.
pub open spec fn clamped(v: int, lo: int, hi: int) -> int {
    if v < lo {
        lo
    } else if v > hi {
        hi
    } else {
        v
    }
}

/// Squared distance from the window's centre to the display.
pub open spec fn gap_squared(m: Rect, x: int, y: int) -> int {
    let cx = x + HUD_WIDTH / 2;
    let cy = y + HUD_HEIGHT / 2;
    let dx = cx - clamped(cx, m.x as int, right(m));
    let dy = cy - clamped(cy, m.y as int, bottom(m));
    dx * dx + dy * dy
}

/// Display `a` serves the window at `(x, y)` better than `b`: it holds more
/// of it, or as much and is nearer, or as near and is primary where `b` is
/// not.
pub open spec fn serves_better(a: MonitorWorkArea, b: MonitorWorkArea, x: int, y: int) -> bool {
    let oa = overlap_area(a.bounds, x, y);
    let ob = overlap_area(b.bounds, x, y);
    let ga = gap_squared(a.bounds, x, y);
    let gb = gap_squared(b.bounds, x, y);
    oa > ob || (oa == ob && (ga < gb || (ga == gb && a.primary && !b.primary)))
}

/// A display's bounds reach right and down from their corner.
pub open spec fn proper(m: MonitorWorkArea) -> bool {
    m.bounds.width >= 0 && m.bounds.height >= 0
}

/// The overlap and distance of the window at `(x, y)` with a display.
fn fit(m: &MonitorWorkArea, x: i32, y: i32) -> (r: (i128, i128))
    requires
        proper(*m),
    ensures
        r.0 == overlap_area(m.bounds, x as int, y as int),
        r.1 == gap_squared(m.bounds, x as int, y as int),
{
    let b = m.bounds;
    let xr = x as i64 + HUD_WIDTH as i64;
    let yb = y as i64 + HUD_HEIGHT as i64;
    let br = b.x as i64 + b.width as i64;
    let bb = b.y as i64 + b.height as i64;
    let w0 = (if xr < br {
        xr
    } else {
        br
    }) - (if (x as i64) > (b.x as i64) {
        x as i64
    } else {
        b.x as i64
    });
    let h0 = (if yb < bb {
        yb
    } else {
        bb
    }) - (if (y as i64) > (b.y as i64) {
        y as i64
    } else {
        b.y as i64
    });
    let w: i128 = if w0 > 0 {
        w0 as i128
    } else {
        0
    };
    let h: i128 = if h0 > 0 {
        h0 as i128
    } else {
        0
    };
    assert(0 <= w <= 0x1_0000_0000 && 0 <= h <= 0x1_0000_0000);
    assert(w * h <= 0x1_0000_0000 * 0x1_0000_0000) by (nonlinear_arith)
        requires
            0 <= w <= 0x1_0000_0000,
            0 <= h <= 0x1_0000_0000,
    ;
    let area = w * h;
    let cx = x as i64 + (HUD_WIDTH / 2) as i64;
    let cy = y as i64 + (HUD_HEIGHT / 2) as i64;
    let kx = if cx < b.x as i64 {
        b.x as i64
    } else if cx > br {
        br
    } else {
        cx
    };
    let ky = if cy < b.y as i64 {
        b.y as i64
    } else if cy > bb {
        bb
    } else {
        cy
    };
    let dx = (cx - kx) as i128;
    let dy = (cy - ky) as i128;
    assert(-0x2_0000_0000 <= dx <= 0x2_0000_0000 && -0x2_0000_0000 <= dy <= 0x2_0000_0000);
    assert(dx * dx <= 0x4_0000_0000 * 0x1_0000_0000) by (nonlinear_arith)
        requires
            -0x2_0000_0000 <= dx <= 0x2_0000_0000,
    ;
    assert(dy * dy <= 0x4_0000_0000 * 0x1_0000_0000) by (nonlinear_arith)
        requires
            -0x2_0000_0000 <= dy <= 0x2_0000_0000,
    ;
    assert(dx * dx >= 0 && dy * dy >= 0) by (nonlinear_arith);
    (area, dx * dx + dy * dy)
}

/// The display a window dropped with its corner at `(x, y)` belongs to:
/// the first that no other serves better; none when there is no display.
pub fn drop_monitor(monitors: &[MonitorWorkArea], x: i32, y: i32) -> (r: Option<usize>)
    requires
        forall|i: int| 0 <= i < monitors@.len() ==> proper(#[trigger] monitors@[i]),
    ensures
        match r {
            None => monitors@.len() == 0,
            Some(i) => {
                &&& i < monitors@.len()
                &&& forall|j: int|
                    0 <= j < monitors@.len() ==> !serves_better(#[trigger] monitors@[j], monitors@[i as int], x as int, y as int)
                &&& forall|j: int|
                    0 <= j < i ==> serves_better(monitors@[i as int], #[trigger] monitors@[j], x as int, y as int)
            },
        },
{
    let n = monitors.len();
    if n == 0 {
        return None;
    }
    let mut best: usize = 0;
    let (mut best_area, mut best_gap) = fit(&monitors[0], x, y);
    let mut i: usize = 1;
    while i < n
        invariant
            n == monitors@.len(),
            1 <= i <= n,
            best < i,
            forall|k: int| 0 <= k < monitors@.len() ==> proper(#[trigger] monitors@[k]),
            best_area == overlap_area(monitors@[best as int].bounds, x as int, y as int),
            best_gap == gap_squared(monitors@[best as int].bounds, x as int, y as int),
            forall|j: int| 0 <= j < i ==> !serves_better(#[trigger] monitors@[j], monitors@[best as int], x as int, y as int),
            forall|j: int| 0 <= j < best ==> serves_better(monitors@[best as int], #[trigger] monitors@[j], x as int, y as int),
        decreases n - i,
    {
        let (area, gap) = fit(&monitors[i], x, y);
        let better = area > best_area || (area == best_area && (gap < best_gap || (gap == best_gap
            && monitors[i].primary && !monitors[best].primary)));
        if better {
            proof {
                assert forall|j: int| 0 <= j < i + 1 implies !serves_better(
                    #[trigger] monitors@[j],
                    monitors@[i as int],
                    x as int,
                    y as int,
                ) by {
                    if j < i {
                        assert(!serves_better(monitors@[j], monitors@[best as int], x as int, y as int));
                    }
                }
                assert forall|j: int| 0 <= j < i implies serves_better(
                    monitors@[i as int],
                    #[trigger] monitors@[j],
                    x as int,
                    y as int,
                ) by {
                    assert(!serves_better(monitors@[j], monitors@[best as int], x as int, y as int));
                }
            }
            best = i;
            best_area = area;
            best_gap = gap;
        }
        i = i + 1;
    }
    Some(best)
}

/// The display a drag ends on, as `drop_monitor` chooses it.
pub open spec fn drop_choice(monitors: Seq<MonitorWorkArea>, x: int, y: int, i: int) -> bool {
    &&& 0 <= i < monitors.len()
    &&& forall|j: int| 0 <= j < monitors.len() ==> !serves_better(#[trigger] monitors[j], monitors[i], x, y)
    &&& forall|j: int| 0 <= j < i ==> serves_better(monitors[i], #[trigger] monitors[j], x, y)
}

/// A window dropped with its corner at `(x, y)` fits the desktop's
/// coordinates, and every display has a proper size.
pub open spec fn drop_measurable(monitors: Seq<MonitorWorkArea>, x: int, y: int) -> bool {
    &&& x + HUD_WIDTH <= i32::MAX
    &&& y + HUD_HEIGHT <= i32::MAX
    &&& forall|i: int| 0 <= i < monitors.len() ==> proper(#[trigger] monitors[i])
}

/// The display whose placement is saved after the window was dropped with
/// its corner at `(x, y)`: the one `drop_monitor` chooses. None when the
/// window's far corner leaves the desktop's coordinates, when a display
/// reports a negative size, when there is no display, or when the chosen
/// display has no device name (a failed enumeration must not replace a
/// saved name).
pub fn placement_monitor(monitors: &[MonitorWorkArea], x: i32, y: i32) -> (r: Option<usize>)
    ensures
        match r {
            Some(i) => drop_measurable(monitors@, x as int, y as int) && drop_choice(monitors@, x as int, y as int, i as int)
                && monitors@[i as int].device_name is Some,
            None => !drop_measurable(monitors@, x as int, y as int) || monitors@.len() == 0 || forall|i: int|
                #[trigger] drop_choice(monitors@, x as int, y as int, i) ==> monitors@[i].device_name is None,
        },
{
    if x.checked_add(HUD_WIDTH).is_none() || y.checked_add(HUD_HEIGHT).is_none() {
        return None;
    }
    let n = monitors.len();
    let mut k: usize = 0;
    while k < n
        invariant
            n == monitors@.len(),
            k <= n,
            forall|i: int| 0 <= i < k ==> proper(#[trigger] monitors@[i]),
        decreases n - k,
    {
        if monitors[k].bounds.width < 0 || monitors[k].bounds.height < 0 {
            return None;
        }
        k = k + 1;
    }
    match drop_monitor(monitors, x, y) {
        None => None,
        Some(i) => {
            proof {
                assert forall|j: int| #[trigger] drop_choice(monitors@, x as int, y as int, j) implies j == i by {
                    if j < i {
                        assert(serves_better(monitors@[i as int], monitors@[j], x as int, y as int));
                    } else if j > i {
                        assert(serves_better(monitors@[j], monitors@[i as int], x as int, y as int));
                    }
                }
            }
            if monitors[i].device_name.is_some() {
                Some(i)
            } else {
                None
            }
        },
    }
}

} // verus!
