//! Monitor topology: displays as half-open pixel rectangles with a density.

use vstd::prelude::*;
use vstd::arithmetic::div_mod::{lemma_div_by_multiple, lemma_div_is_ordered};

verus! {

/// Whether a display is wider than tall or taller than wide.
#[derive(Debug, Clone, Copy, PartialEq, Eq, Structural)]
pub enum MonitorOrientation {
    Horizontal,
    Vertical,
}

/// One display: the half-open rectangle `[x_pos, x_pos + width_px) x [y_pos, y_pos + height_px)`
/// in global pixel coordinates (empty when an extent is zero or negative), with its density.
#[derive(Debug, Clone, Copy, PartialEq, Eq, Structural)]
pub struct Monitor {
    pub x_pos: i32,
    pub y_pos: i32,
    pub width_px: i32,
    pub height_px: i32,
    /// Density in thousandths of a pixel per inch.
    pub ppi_milli: u64,
    pub primary: bool,
    pub display_id: u32,
    pub orientation: MonitorOrientation,
}

/// Why a topology query or a distance could not be answered.
#[derive(Debug, Clone, PartialEq, Eq)]
pub enum MonitorError {
    NoMonitorsFound,
    PointOutsideTopology,
    SystemError(String),
}

impl Monitor {
    /// A usable monitor: a positive density, and far edges that fit in `i32`.
    pub open spec fn well_formed(self) -> bool {
        &&& self.ppi_milli > 0
        &&& i32::MIN <= self.x_pos + self.width_px <= i32::MAX
        &&& i32::MIN <= self.y_pos + self.height_px <= i32::MAX
    }

    /// The point lies in the monitor's half-open rectangle.
    pub open spec fn contains(self, x: int, y: int) -> bool {
        &&& self.x_pos <= x < self.x_pos + self.width_px
        &&& self.y_pos <= y < self.y_pos + self.height_px
    }

    /// Builds a monitor from what the display system reports: its origin and logical size,
    /// its physical height in pixels, whether it is the main display, and its id. The density
    /// is `72 * pixels_high / height_px` pixels per inch, kept in thousandths and rounded up;
    /// the orientation is vertical when the display is taller than wide. A far edge past the
    /// `i32` range is brought back to it, since no pointer position lies beyond. A display
    /// without a positive density (no logical or no physical rows) is a `SystemError`.
    pub fn new(
        x_pos: i32,
        y_pos: i32,
        width_px: i32,
        height_px: i32,
        pixels_high: u32,
        primary: bool,
        display_id: u32,
    ) -> (r: Result<Monitor, MonitorError>)
        ensures
            raw_usable(height_px, pixels_high) ==> r == Ok::<Monitor, MonitorError>(
                monitor_from_raw(x_pos, y_pos, width_px, height_px, pixels_high, primary, display_id),
            ) && r->Ok_0.well_formed(),
            !raw_usable(height_px, pixels_high) ==> r is Err && r->Err_0 is SystemError,
    {
        if height_px <= 0 || pixels_high == 0 {
            return Err(MonitorError::SystemError(String::from_str("display has no positive density")));
        }
        let h = height_px as u64;
        let ppi_milli: u64 = (BASE_PPI_MILLI * (pixels_high as u64) + h - 1) / h;
        proof {
            lemma_display_ppi_positive(pixels_high as int, height_px as int);
            assert(ppi_milli as int == display_ppi_milli(pixels_high as int, height_px as int));
        }
        let orientation = if height_px > width_px {
            MonitorOrientation::Vertical
        } else {
            MonitorOrientation::Horizontal
        };
        Ok(Monitor {
            x_pos,
            y_pos,
            width_px: clamped_extent(x_pos, width_px),
            height_px: clamped_extent(y_pos, height_px),
            ppi_milli,
            primary,
            display_id,
            orientation,
        })
    }

    /// The eight transition points of the monitor: its four corners, then the midpoints of its
    /// top, bottom, left and right edges.
    pub open spec fn edge_points(self) -> Seq<(i32, i32)> {
        let x0 = self.x_pos;
        let y0 = self.y_pos;
        let x1 = (self.x_pos + self.width_px) as i32;
        let y1 = (self.y_pos + self.height_px) as i32;
        let xm = (self.x_pos + half_toward_zero(self.width_px as int)) as i32;
        let ym = (self.y_pos + half_toward_zero(self.height_px as int)) as i32;
        seq![(x0, y0), (x1, y0), (x0, y1), (x1, y1), (xm, y0), (xm, y1), (x0, ym), (x1, ym)]
    }

    pub fn get_edge_points(&self) -> (r: Vec<(i32, i32)>)
        requires
            self.well_formed(),
        ensures
            r@ == self.edge_points(),
    {
        let x1 = self.x_pos + self.width_px;
        let y1 = self.y_pos + self.height_px;
        let xm = (self.x_pos as i64 + half(self.width_px)) as i32;
        let ym = (self.y_pos as i64 + half(self.height_px)) as i32;
        let r = vec![
            (self.x_pos, self.y_pos),
            (x1, self.y_pos),
            (self.x_pos, y1),
            (x1, y1),
            (xm, self.y_pos),
            (xm, y1),
            (self.x_pos, ym),
            (x1, ym),
        ];
        assert(r@ =~= self.edge_points());
        r
    }

    pub fn contains_point(&self, x: i32, y: i32) -> (r: bool)
        requires
            self.well_formed(),
        ensures
            r == self.contains(x as int, y as int),
    {
        x >= self.x_pos && x < self.x_pos + self.width_px && y >= self.y_pos && y < self.y_pos
            + self.height_px
    }
}

/// Density, in thousandths of a pixel per inch, assumed for a display reported at scale
/// factor 1.
pub const BASE_PPI_MILLI: u64 = 72000;

/// Density in thousandths of a pixel per inch of a display whose logical height is `height`
/// and whose physical height is `pixels_high` pixels: `72000 * pixels_high / height`, rounded
/// up.
pub open spec fn display_ppi_milli(pixels_high: int, height: int) -> int {
    (BASE_PPI_MILLI * pixels_high + height - 1) / height
}

/// The extent from `pos` that keeps the far edge `pos + ext` within the `i32` range.
pub open spec fn clamp_extent(pos: int, ext: int) -> int {
    if pos + ext > i32::MAX {
        i32::MAX - pos
    } else if pos + ext < i32::MIN {
        i32::MIN - pos
    } else {
        ext
    }
}

fn clamped_extent(pos: i32, ext: i32) -> (r: i32)
    ensures
        r == clamp_extent(pos as int, ext as int),
{
    let far: i64 = pos as i64 + ext as i64;
    if far > i32::MAX as i64 {
        (i32::MAX as i64 - pos as i64) as i32
    } else if far < i32::MIN as i64 {
        (i32::MIN as i64 - pos as i64) as i32
    } else {
        ext
    }
}

/// Half of `v`, rounded toward zero.
pub open spec fn half_toward_zero(v: int) -> int {
    if v >= 0 {
        v / 2
    } else {
        -((-v) / 2)
    }
}

fn half(v: i32) -> (r: i64)
    ensures
        r == half_toward_zero(v as int),
{
    let w = v as i64;
    if w >= 0 {
        w / 2
    } else {
        -((-w) / 2)
    }
}

/// Positive rows give a positive density that fits in `u64`.
proof fn lemma_display_ppi_positive(pixels_high: int, height: int)
    requires
        1 <= pixels_high <= u32::MAX,
        1 <= height,
    ensures
        0 < display_ppi_milli(pixels_high, height) <= BASE_PPI_MILLI * pixels_high + height,
{
    let (num, den) = (BASE_PPI_MILLI * pixels_high + height - 1, height);
    lemma_div_is_ordered(den, num, den);
    lemma_div_by_multiple(1, den);
    assert(num <= num * den) by (nonlinear_arith)
        requires
            num >= 0,
            den >= 1,
    ;
    lemma_div_is_ordered(num, num * den, den);
    lemma_div_by_multiple(num, den);
}

/// What a raw display description becomes, when it has a positive density.
pub open spec fn monitor_from_raw(
    x_pos: i32,
    y_pos: i32,
    width_px: i32,
    height_px: i32,
    pixels_high: u32,
    primary: bool,
    display_id: u32,
) -> Monitor {
    Monitor {
        x_pos,
        y_pos,
        width_px: clamp_extent(x_pos as int, width_px as int) as i32,
        height_px: clamp_extent(y_pos as int, height_px as int) as i32,
        ppi_milli: display_ppi_milli(pixels_high as int, height_px as int) as u64,
        primary,
        display_id,
        orientation: if height_px > width_px {
            MonitorOrientation::Vertical
        } else {
            MonitorOrientation::Horizontal
        },
    }
}

/// A raw display description has a positive density: it has logical and physical rows.
pub open spec fn raw_usable(height_px: i32, pixels_high: u32) -> bool {
    height_px > 0 && pixels_high > 0
}

/// What the display system reports of one display.
#[derive(Debug, Clone, Copy, PartialEq, Eq, Structural)]
pub struct DisplayDescriptor {
    pub x_pos: i32,
    pub y_pos: i32,
    pub width_px: i32,
    pub height_px: i32,
    pub pixels_high: u32,
    pub primary: bool,
    pub display_id: u32,
}

impl DisplayDescriptor {
    pub open spec fn usable(self) -> bool {
        raw_usable(self.height_px, self.pixels_high)
    }

    pub open spec fn monitor(self) -> Monitor {
        monitor_from_raw(
            self.x_pos,
            self.y_pos,
            self.width_px,
            self.height_px,
            self.pixels_high,
            self.primary,
            self.display_id,
        )
    }
}

/// The monitors of the usable displays, in order.
pub open spec fn usable_monitors(ds: Seq<DisplayDescriptor>) -> Seq<Monitor>
    decreases ds.len(),
{
    if ds.len() == 0 {
        Seq::empty()
    } else if ds.last().usable() {
        usable_monitors(ds.drop_last()).push(ds.last().monitor())
    } else {
        usable_monitors(ds.drop_last())
    }
}

proof fn lemma_usable_monitors_well_formed(ds: Seq<DisplayDescriptor>)
    ensures
        topology_well_formed(usable_monitors(ds)),
    decreases ds.len(),
{
    if ds.len() > 0 {
        lemma_usable_monitors_well_formed(ds.drop_last());
        let d = ds.last();
        if d.usable() {
            lemma_display_ppi_positive(d.pixels_high as int, d.height_px as int);
        }
    }
}

/// The topology of the displays: the monitor of each display that has a positive density, in
/// order; `NoMonitorsFound` when none does.
pub fn monitors_from_displays(displays: &Vec<DisplayDescriptor>) -> (r: Result<Vec<Monitor>, MonitorError>)
    ensures
        usable_monitors(displays@).len() == 0 ==> r == Err::<Vec<Monitor>, MonitorError>(
            MonitorError::NoMonitorsFound,
        ),
        usable_monitors(displays@).len() > 0 ==> r is Ok && r->Ok_0@ == usable_monitors(displays@),
        r matches Ok(ms) ==> topology_well_formed(ms@),
{
    let mut out: Vec<Monitor> = Vec::new();
    let mut i: usize = 0;
    while i < displays.len()
        invariant
            0 <= i <= displays@.len(),
            out@ == usable_monitors(displays@.take(i as int)),
        decreases displays@.len() - i,
    {
        let d = displays[i];
        proof {
            assert(displays@.take(i + 1).drop_last() =~= displays@.take(i as int));
            assert(displays@.take(i + 1).last() == d);
        }
        match Monitor::new(d.x_pos, d.y_pos, d.width_px, d.height_px, d.pixels_high, d.primary, d.display_id) {
            Ok(m) => out.push(m),
            Err(_) => {},
        }
        i = i + 1;
    }
    assert(displays@.take(displays@.len() as int) =~= displays@);
    proof {
        lemma_usable_monitors_well_formed(displays@);
    }
    if out.len() == 0 {
        Err(MonitorError::NoMonitorsFound)
    } else {
        Ok(out)
    }
}

/// Index of the first monitor of `ms` at or after `i` that contains the point.
pub open spec fn first_monitor_from(ms: Seq<Monitor>, x: int, y: int, i: int) -> Option<int>
    decreases ms.len() - i,
{
    if i < 0 || i >= ms.len() {
        None
    } else if ms[i].contains(x, y) {
        Some(i)
    } else {
        first_monitor_from(ms, x, y, i + 1)
    }
}

/// Index of the first monitor of the topology that contains the point.
pub open spec fn first_monitor(ms: Seq<Monitor>, x: int, y: int) -> Option<int> {
    first_monitor_from(ms, x, y, 0)
}

/// Every monitor of the topology is usable.
pub open spec fn topology_well_formed(ms: Seq<Monitor>) -> bool {
    forall|i: int| 0 <= i < ms.len() ==> #[trigger] ms[i].well_formed()
}

/// No point lies on two monitors.
pub open spec fn pairwise_disjoint(ms: Seq<Monitor>) -> bool {
    forall|i: int, j: int, x: int, y: int|
        0 <= i < ms.len() && 0 <= j < ms.len() && i != j && #[trigger] ms[i].contains(x, y)
            ==> !#[trigger] ms[j].contains(x, y)
}

pub proof fn lemma_first_monitor_from(ms: Seq<Monitor>, x: int, y: int, i: int)
    requires
        0 <= i <= ms.len(),
    ensures
        first_monitor_from(ms, x, y, i) matches Some(k) ==> i <= k < ms.len() && ms[k].contains(x, y)
            && forall|j: int| i <= j < k ==> !#[trigger] ms[j].contains(x, y),
        first_monitor_from(ms, x, y, i) is None ==> forall|j: int|
            i <= j < ms.len() ==> !#[trigger] ms[j].contains(x, y),
    decreases ms.len() - i,
{
    if i < ms.len() && !ms[i].contains(x, y) {
        lemma_first_monitor_from(ms, x, y, i + 1);
    }
}

/// The first monitor is the one that contains the point, on a topology without overlaps.
pub proof fn lemma_first_monitor_is_containing(ms: Seq<Monitor>, x: int, y: int, k: int)
    requires
        pairwise_disjoint(ms),
        0 <= k < ms.len(),
        ms[k].contains(x, y),
    ensures
        first_monitor(ms, x, y) == Some(k),
{
    lemma_first_monitor_from(ms, x, y, 0);
    match first_monitor(ms, x, y) {
        Some(j) => {
            if j != k {
                assert(!ms[k].contains(x, y));
            }
        },
        None => {
            assert(!ms[k].contains(x, y));
        },
    }
}

/// `|x2 - x1| + |y2 - y1|`.
pub open spec fn manhattan(x1: int, y1: int, x2: int, y2: int) -> int {
    (if x2 >= x1 { x2 - x1 } else { x1 - x2 }) + (if y2 >= y1 { y2 - y1 } else { y1 - y2 })
}

pub fn manhattan_distance(x1: i32, y1: i32, x2: i32, y2: i32) -> (r: u64)
    ensures
        r == manhattan(x1 as int, y1 as int, x2 as int, y2 as int),
{
    let dx: i64 = x2 as i64 - x1 as i64;
    let dy: i64 = y2 as i64 - y1 as i64;
    let ax: u64 = if dx >= 0 { dx as u64 } else { (-dx) as u64 };
    let ay: u64 = if dy >= 0 { dy as u64 } else { (-dy) as u64 };
    ax + ay
}

/// Slack, in pixels, allowed when deciding that two monitors touch.
pub const ALIGNMENT_TOLERANCE: i64 = 5;

/// Two monitors touch: their extents overlap (within the tolerance) along one axis while an
/// edge of one lies within the tolerance of the opposite edge of the other along the other axis.
pub open spec fn adjacent(m1: Monitor, m2: Monitor) -> bool {
    let t = ALIGNMENT_TOLERANCE as int;
    let x_overlap = m1.x_pos - t < m2.x_pos + m2.width_px && m2.x_pos - t < m1.x_pos + m1.width_px;
    let y_overlap = m1.y_pos - t < m2.y_pos + m2.height_px && m2.y_pos - t < m1.y_pos + m1.height_px;
    (x_overlap && (abs(m1.y_pos - m2.y_pos - m2.height_px) <= t || abs(m2.y_pos - m1.y_pos
        - m1.height_px) <= t)) || (y_overlap && (abs(m1.x_pos - m2.x_pos - m2.width_px) <= t || abs(
        m2.x_pos - m1.x_pos - m1.width_px,
    ) <= t))
}

pub open spec fn abs(v: int) -> int {
    if v >= 0 {
        v
    } else {
        -v
    }
}

fn abs_i64(v: i64) -> (r: i64)
    requires
        v > i64::MIN,
    ensures
        r == abs(v as int),
{
    if v >= 0 {
        v
    } else {
        -v
    }
}

/// Whether two monitors touch, edge to edge, within the alignment tolerance.
pub fn are_monitors_adjacent(m1: &Monitor, m2: &Monitor) -> (r: bool)
    ensures
        r == adjacent(*m1, *m2),
{
    let t = ALIGNMENT_TOLERANCE;
    let (x1, y1, w1, h1) = (m1.x_pos as i64, m1.y_pos as i64, m1.width_px as i64, m1.height_px as i64);
    let (x2, y2, w2, h2) = (m2.x_pos as i64, m2.y_pos as i64, m2.width_px as i64, m2.height_px as i64);
    let x_overlap = x1 - t < x2 + w2 && x2 - t < x1 + w1;
    let y_overlap = y1 - t < y2 + h2 && y2 - t < y1 + h1;
    (x_overlap && (abs_i64(y1 - y2 - h2) <= t || abs_i64(y2 - y1 - h1) <= t)) || (y_overlap && (
    abs_i64(x1 - x2 - w2) <= t || abs_i64(x2 - x1 - w1) <= t))
}

/// The first monitor of the topology that contains the point.
pub fn get_monitor_for_coordinates(x: i32, y: i32, monitors: &[Monitor]) -> (r: Result<
    &Monitor,
    MonitorError,
>)
    requires
        topology_well_formed(monitors@),
    ensures
        monitors@.len() == 0 ==> r == Err::<&Monitor, MonitorError>(MonitorError::NoMonitorsFound),
        monitors@.len() > 0 ==> match first_monitor(monitors@, x as int, y as int) {
            Some(k) => r == Ok::<&Monitor, MonitorError>(&monitors@[k]),
            None => r == Err::<&Monitor, MonitorError>(MonitorError::PointOutsideTopology),
        },
{
    proof {
        lemma_first_monitor_from(monitors@, x as int, y as int, 0);
    }
    match find_monitor_index(x, y, monitors) {
        Some(k) => Ok(&monitors[k]),
        None => if monitors.len() == 0 {
            Err(MonitorError::NoMonitorsFound)
        } else {
            Err(MonitorError::PointOutsideTopology)
        },
    }
}

/// Position of the first monitor of the topology that contains the point.
pub fn find_monitor_index(x: i32, y: i32, monitors: &[Monitor]) -> (r: Option<usize>)
    requires
        topology_well_formed(monitors@),
    ensures
        r == match first_monitor(monitors@, x as int, y as int) {
            Some(k) => Some(k as usize),
            None => None::<usize>,
        },
{
    let mut i: usize = 0;
    while i < monitors.len()
        invariant
            0 <= i <= monitors@.len(),
            topology_well_formed(monitors@),
            first_monitor(monitors@, x as int, y as int) == first_monitor_from(
                monitors@,
                x as int,
                y as int,
                i as int,
            ),
        decreases monitors@.len() - i,
    {
        if monitors[i].contains_point(x, y) {
            return Some(i);
        }
        i = i + 1;
    }
    None
}

} // verus!
