//! Application settings: configured projects, how a project reference resolves to one of them,
//! and where a restored window is placed.
use vstd::prelude::*;

use crate::text::{
    ascii_lower_chars, chars_eq, chars_of, lower_ascii_seq, owned, push_chars, trim, trim_chars,
};

verus! {

broadcast use vstd::string::group_string_axioms;

pub const MIN_RESTORED_WINDOW_WIDTH: u32 = 640;
pub const MIN_RESTORED_WINDOW_HEIGHT: u32 = 480;

/// One configured project.
#[derive(Clone, Debug)]
pub struct ProjectSettings {
    pub id: String,
    pub name: String,
    pub folder: String,
}

/// A saved window size and, when known, its position.
#[derive(Clone, Copy, Debug, PartialEq, Eq, Structural)]
pub struct WindowSettings {
    pub width: u32,
    pub height: u32,
    pub x: Option<i32>,
    pub y: Option<i32>,
}

impl Default for WindowSettings {
    fn default() -> (w: WindowSettings)
        ensures
            w.width == 1280,
            w.height == 800,
            w.x is None,
            w.y is None,
    {
        WindowSettings { width: 1280, height: 800, x: None, y: None }
    }
}

/// A reusable rule definition kept in the settings.
#[derive(Clone, Debug)]
pub struct RuleTemplate {
    pub id: String,
    pub name: String,
    pub intend: String,
    pub hook: String,
    pub prompt: String,
}

/// Everything the settings file holds.
#[derive(Clone, Debug)]
pub struct AppSettings {
    pub window: WindowSettings,
    pub projects: Vec<ProjectSettings>,
    pub last_active_project_id: Option<String>,
    pub rule_templates: Vec<RuleTemplate>,
}

/// ASCII-case-insensitive equality (`eq_ignore_ascii_case`).
pub open spec fn eq_ignore_ascii_case(a: Seq<char>, b: Seq<char>) -> bool {
    lower_ascii_seq(a) == lower_ascii_seq(b)
}

/// A project matches a reference by exact id or by ASCII-case-insensitive name.
pub open spec fn project_matches(p: ProjectSettings, r: Seq<char>) -> bool {
    p.id@ == r || eq_ignore_ascii_case(p.name@, r)
}

/// The index of the first project that matches, if any.
pub open spec fn first_match(ps: Seq<ProjectSettings>, r: Seq<char>) -> Option<int>
    decreases ps.len(),
{
    if ps.len() == 0 {
        None
    } else {
        match first_match(ps.drop_last(), r) {
            Some(i) => Some(i),
            None => if project_matches(ps.last(), r) {
                Some(ps.len() - 1)
            } else {
                None
            },
        }
    }
}

pub open spec fn missing_reference_message() -> Seq<char> {
    "projectId is required and must be a configured project id or project name"@
}

pub open spec fn unknown_project_message(r: Seq<char>) -> Seq<char> {
    "Unknown project id or name: "@ + r
}

/// Whether two character sequences are equal ignoring ASCII case.
pub fn chars_eq_ignore_ascii_case(a: &[char], b: &[char]) -> (r: bool)
    ensures
        r == eq_ignore_ascii_case(a@, b@),
{
    let la = ascii_lower_chars(a);
    let lb = ascii_lower_chars(b);
    chars_eq(la.as_slice(), lb.as_slice())
}

/// Resolves a project reference: a blank or missing reference is refused, otherwise the first
/// project whose id equals it or whose name equals it ignoring ASCII case.
pub fn resolve_project_from_settings(settings: &AppSettings, project_ref: Option<&str>) -> (r:
    Result<ProjectSettings, String>)
    ensures
        match project_ref {
            None => r matches Err(m) && m@ == missing_reference_message(),
            Some(s) => if trim(s@).len() == 0 {
                r matches Err(m) && m@ == missing_reference_message()
            } else {
                match first_match(settings.projects@, trim(s@)) {
                    Some(i) => r matches Ok(p) && p.id@ == settings.projects@[i].id@ && p.name@
                        == settings.projects@[i].name@ && p.folder@
                        == settings.projects@[i].folder@,
                    None => r matches Err(m) && m@ == unknown_project_message(trim(s@)),
                }
            },
        },
{
    let reference = match project_ref {
        None => {
            return Err(
                owned("projectId is required and must be a configured project id or project name"),
            );
        },
        Some(s) => s,
    };
    let raw = chars_of(reference);
    let r = trim_chars(raw.as_slice());
    if r.len() == 0 {
        return Err(
            owned("projectId is required and must be a configured project id or project name"),
        );
    }
    let mut i: usize = 0;
    while i < settings.projects.len()
        invariant
            i <= settings.projects@.len(),
            r@ == trim(reference@),
            project_ref == Some(reference),
            r@.len() > 0,
            forall|j: int| 0 <= j < i ==> !project_matches(#[trigger] settings.projects@[j], r@),
        decreases settings.projects.len() - i,
    {
        let p = &settings.projects[i];
        let id = chars_of(p.id.as_str());
        let name = chars_of(p.name.as_str());
        if chars_eq(id.as_slice(), r.as_slice()) || chars_eq_ignore_ascii_case(
            name.as_slice(),
            r.as_slice(),
        ) {
            proof {
                lemma_first_match_at(settings.projects@, r@, i as int);
            }
            let found = ProjectSettings {
                id: p.id.clone(),
                name: p.name.clone(),
                folder: p.folder.clone(),
            };
            assert(found.id@ == settings.projects@[i as int].id@);
            assert(found.name@ == settings.projects@[i as int].name@);
            assert(found.folder@ == settings.projects@[i as int].folder@);
            assert(first_match(settings.projects@, trim(reference@)) == Some(i as int));
            return Ok(found);
        }
        i += 1;
    }
    proof {
        lemma_first_match_none(settings.projects@, r@);
    }
    let mut m = owned("Unknown project id or name: ");
    push_chars(&mut m, r.as_slice());
    Err(m)
}

proof fn lemma_first_match_at(ps: Seq<ProjectSettings>, r: Seq<char>, i: int)
    requires
        0 <= i < ps.len(),
        project_matches(ps[i], r),
        forall|j: int| 0 <= j < i ==> !project_matches(#[trigger] ps[j], r),
    ensures
        first_match(ps, r) == Some(i),
    decreases ps.len(),
{
    if i < ps.len() - 1 {
        lemma_first_match_at(ps.drop_last(), r, i);
    } else {
        lemma_first_match_none(ps.drop_last(), r);
    }
}

proof fn lemma_first_match_none(ps: Seq<ProjectSettings>, r: Seq<char>)
    requires
        forall|j: int| 0 <= j < ps.len() ==> !project_matches(#[trigger] ps[j], r),
    ensures
        first_match(ps, r) is None,
    decreases ps.len(),
{
    if ps.len() > 0 {
        lemma_first_match_none(ps.drop_last(), r);
    }
}

// ---------------------------------------------------------------- window placement

/// A monitor's position and size.
#[derive(Clone, Copy, Debug, PartialEq, Eq, Structural)]
pub struct MonitorArea {
    pub x: i32,
    pub y: i32,
    pub width: u32,
    pub height: u32,
}

pub open spec fn imin(a: int, b: int) -> int {
    if a <= b {
        a
    } else {
        b
    }
}

pub open spec fn imax(a: int, b: int) -> int {
    if a >= b {
        a
    } else {
        b
    }
}

/// Width and height of the overlap of a placed window and a monitor.
pub open spec fn overlap(w: WindowSettings, m: MonitorArea) -> (int, int) {
    let wl = w.x.unwrap() as int;
    let wt = w.y.unwrap() as int;
    let ml = m.x as int;
    let mt = m.y as int;
    (
        imin(wl + w.width, ml + m.width) - imax(wl, ml),
        imin(wt + w.height, mt + m.height) - imax(wt, mt),
    )
}

/// The overlap area, counted only when both sides overlap by at least 80 pixels; a window
/// without a position overlaps nothing.
pub open spec fn intersection_area(w: WindowSettings, m: MonitorArea) -> int {
    if w.x is None || w.y is None {
        0
    } else {
        let o = overlap(w, m);
        if o.0 < 80 || o.1 < 80 {
            0
        } else {
            o.0 * o.1
        }
    }
}

/// The overlap area of a window and a monitor.
pub fn window_monitor_intersection_area(window: &WindowSettings, monitor: &MonitorArea) -> (r:
    i64)
    requires
        intersection_area(*window, *monitor) <= i64::MAX,
    ensures
        r == intersection_area(*window, *monitor),
{
    let (x, y) = match (window.x, window.y) {
        (Some(x), Some(y)) => (x, y),
        _ => {
            return 0;
        },
    };
    let window_left = x as i64;
    let window_top = y as i64;
    let window_right = window_left + window.width as i64;
    let window_bottom = window_top + window.height as i64;
    let monitor_left = monitor.x as i64;
    let monitor_top = monitor.y as i64;
    let monitor_right = monitor_left + monitor.width as i64;
    let monitor_bottom = monitor_top + monitor.height as i64;
    let right = if window_right <= monitor_right {
        window_right
    } else {
        monitor_right
    };
    let left = if window_left >= monitor_left {
        window_left
    } else {
        monitor_left
    };
    let bottom = if window_bottom <= monitor_bottom {
        window_bottom
    } else {
        monitor_bottom
    };
    let top = if window_top >= monitor_top {
        window_top
    } else {
        monitor_top
    };
    let intersection_width = right - left;
    let intersection_height = bottom - top;
    if intersection_width < 80 || intersection_height < 80 {
        return 0;
    }
    intersection_width * intersection_height
}

/// The index of the monitor a window belongs on: the one it overlaps most (the last of equal
/// overlaps), else the first monitor, else none.
pub open spec fn best_monitor(w: WindowSettings, ms: Seq<MonitorArea>) -> Option<int> {
    match best_overlap(w, ms) {
        Some(i) => Some(i),
        None => if ms.len() > 0 {
            Some(0)
        } else {
            None
        },
    }
}

/// The last index among those with the largest positive overlap.
pub open spec fn best_overlap(w: WindowSettings, ms: Seq<MonitorArea>) -> Option<int>
    decreases ms.len(),
{
    if ms.len() == 0 {
        None
    } else {
        let a = intersection_area(w, ms.last());
        match best_overlap(w, ms.drop_last()) {
            None => if a > 0 {
                Some(ms.len() - 1)
            } else {
                None
            },
            Some(b) => if a > 0 && a >= intersection_area(w, ms[b]) {
                Some(ms.len() - 1)
            } else {
                Some(b)
            },
        }
    }
}

/// The monitor a restored window is placed on.
pub fn best_window_monitor(window: &WindowSettings, monitors: &[MonitorArea]) -> (r: Option<
    usize,
>)
    requires
        forall|i: int|
            0 <= i < monitors@.len() ==> intersection_area(*window, #[trigger] monitors@[i])
                <= i64::MAX,
    ensures
        match r {
            Some(i) => best_monitor(*window, monitors@) == Some(i as int) && i < monitors@.len(),
            None => best_monitor(*window, monitors@) is None,
        },
{
    let mut best: Option<usize> = None;
    let mut best_area: i64 = 0;
    let mut i: usize = 0;
    while i < monitors.len()
        invariant
            i <= monitors@.len(),
            forall|k: int|
                0 <= k < monitors@.len() ==> intersection_area(*window, #[trigger] monitors@[k])
                    <= i64::MAX,
            match best {
                Some(b) => best_overlap(*window, monitors@.take(i as int)) == Some(b as int)
                    && b < i && best_area == intersection_area(*window, monitors@[b as int]),
                None => best_overlap(*window, monitors@.take(i as int)) is None,
            },
        decreases monitors.len() - i,
    {
        proof {
            assert(monitors@.take(i + 1).drop_last() =~= monitors@.take(i as int));
            if let Some(b) = best {
                assert(monitors@.take(i + 1)[b as int] == monitors@[b as int]);
            }
        }
        let area = window_monitor_intersection_area(window, &monitors[i]);
        if area > 0 {
            match best {
                None => {
                    best = Some(i);
                    best_area = area;
                },
                Some(_) => {
                    if area >= best_area {
                        best = Some(i);
                        best_area = area;
                    }
                },
            }
        }
        i += 1;
    }
    assert(monitors@.take(monitors@.len() as int) =~= monitors@);
    match best {
        Some(b) => Some(b),
        None => if monitors.len() > 0 {
            Some(0)
        } else {
            None
        },
    }
}

pub open spec fn clamp_int(v: int, lo: int, hi: int) -> int {
    if v < lo {
        lo
    } else if v > hi {
        hi
    } else {
        v
    }
}

/// Where a saved window is restored: on its best monitor, no smaller than the minimum size, no
/// larger than the monitor, and moved inside it; without a monitor only the minimum size
/// applies.
pub open spec fn restored_spec(saved: WindowSettings, ms: Seq<MonitorArea>) -> WindowSettings {
    match best_monitor(saved, ms) {
        None => WindowSettings {
            width: imax(saved.width as int, MIN_RESTORED_WINDOW_WIDTH as int) as u32,
            height: imax(saved.height as int, MIN_RESTORED_WINDOW_HEIGHT as int) as u32,
            x: saved.x,
            y: saved.y,
        },
        Some(i) => {
            let m = ms[i];
            let mw = imax(m.width as int, MIN_RESTORED_WINDOW_WIDTH as int);
            let mh = imax(m.height as int, MIN_RESTORED_WINDOW_HEIGHT as int);
            let width = clamp_int(saved.width as int, MIN_RESTORED_WINDOW_WIDTH as int, mw);
            let height = clamp_int(saved.height as int, MIN_RESTORED_WINDOW_HEIGHT as int, mh);
            WindowSettings {
                width: width as u32,
                height: height as u32,
                x: match saved.x {
                    Some(x) => Some(
                        clamp_int(x as int, m.x as int, m.x + (mw - width)) as i32,
                    ),
                    None => None,
                },
                y: match saved.y {
                    Some(y) => Some(
                        clamp_int(y as int, m.y as int, m.y + (mh - height)) as i32,
                    ),
                    None => None,
                },
            }
        },
    }
}

/// Places a saved window on the available monitors.
pub fn restored_window_settings(saved: &WindowSettings, monitors: &[MonitorArea]) -> (r:
    WindowSettings)
    requires
        forall|i: int|
            0 <= i < monitors@.len() ==> intersection_area(*saved, #[trigger] monitors@[i])
                <= i64::MAX,
    ensures
        r == restored_spec(*saved, monitors@),
{
    let best = best_window_monitor(saved, monitors);
    let i = match best {
        None => {
            let width = if saved.width >= MIN_RESTORED_WINDOW_WIDTH {
                saved.width
            } else {
                MIN_RESTORED_WINDOW_WIDTH
            };
            let height = if saved.height >= MIN_RESTORED_WINDOW_HEIGHT {
                saved.height
            } else {
                MIN_RESTORED_WINDOW_HEIGHT
            };
            return WindowSettings { width, height, x: saved.x, y: saved.y };
        },
        Some(i) => i,
    };
    let monitor = &monitors[i];
    let monitor_left = monitor.x as i64;
    let monitor_top = monitor.y as i64;
    let monitor_width = if monitor.width >= MIN_RESTORED_WINDOW_WIDTH {
        monitor.width
    } else {
        MIN_RESTORED_WINDOW_WIDTH
    };
    let monitor_height = if monitor.height >= MIN_RESTORED_WINDOW_HEIGHT {
        monitor.height
    } else {
        MIN_RESTORED_WINDOW_HEIGHT
    };
    let width = if saved.width < MIN_RESTORED_WINDOW_WIDTH {
        MIN_RESTORED_WINDOW_WIDTH
    } else if saved.width > monitor_width {
        monitor_width
    } else {
        saved.width
    };
    let height = if saved.height < MIN_RESTORED_WINDOW_HEIGHT {
        MIN_RESTORED_WINDOW_HEIGHT
    } else if saved.height > monitor_height {
        monitor_height
    } else {
        saved.height
    };
    let x = match saved.x {
        Some(x) => {
            let max_x = monitor_left + (monitor_width - width) as i64;
            let v = x as i64;
            let c = if v < monitor_left {
                monitor_left
            } else if v > max_x {
                max_x
            } else {
                v
            };
            Some(c as i32)
        },
        None => None,
    };
    let y = match saved.y {
        Some(y) => {
            let max_y = monitor_top + (monitor_height - height) as i64;
            let v = y as i64;
            let c = if v < monitor_top {
                monitor_top
            } else if v > max_y {
                max_y
            } else {
                v
            };
            Some(c as i32)
        },
        None => None,
    };
    WindowSettings { width, height, x, y }
}

} // verus!
