//! Where the dashboard puts what on the terminal.

use ratatui::layout::{Constraint, Direction, Layout, Rect};
use ratatui::widgets::{Block, Borders, Padding};
use vstd::arithmetic::div_mod::*;
use vstd::arithmetic::mul::*;
use vstd::prelude::*;

verus! {

/// A rectangle of terminal cells.
#[derive(Clone, Copy, Debug, PartialEq, Eq, Structural)]
pub struct Area {
    pub x: u16,
    pub y: u16,
    pub width: u16,
    pub height: u16,
}

/// The way in which an area is divided.
#[derive(Clone, Copy, Debug, PartialEq, Eq, Structural)]
pub enum Axis {
    /// One part under the other.
    Rows,
    /// One part beside the other.
    Columns,
}

/// The cells that lie on an axis from `start` on: none past the last coordinate.
pub open spec fn reach(start: u16, length: u16) -> nat {
    if start + length > u16::MAX {
        (u16::MAX - start) as nat
    } else {
        length as nat
    }
}

/// Where the first `c` of `t` shares of a length end: at the nearest cell border, halves rounded up.
pub open spec fn border(start: u16, length: u16, c: nat, t: nat) -> u16 {
    (start + (2 * (reach(start, length) * c) + t) / (2 * t)) as u16
}

/// What the shares from `c` to `d`, of `t` in all, make up of an area.
pub open spec fn part(axis: Axis, area: Area, c: nat, d: nat, t: nat) -> Area {
    match axis {
        Axis::Rows => {
            let from = border(area.y, area.height, c, t);
            let to = border(area.y, area.height, d, t);
            Area { y: from, height: (to - from) as u16, ..area }
        },
        Axis::Columns => {
            let from = border(area.x, area.width, c, t);
            let to = border(area.x, area.width, d, t);
            Area { x: from, width: (to - from) as u16, ..area }
        },
    }
}

/// The first `k` shares together.
pub open spec fn first_shares(shares: Seq<u16>, k: nat) -> nat
    decreases k,
{
    if k == 0 {
        0
    } else {
        first_shares(shares, (k - 1) as nat) + shares[k - 1] as nat
    }
}

/// An area divided in proportion to `shares`.
pub open spec fn divided(axis: Axis, shares: Seq<u16>, area: Area) -> Seq<Area> {
    Seq::new(
        shares.len(),
        |i: int|
            part(
                axis,
                area,
                first_shares(shares, i as nat),
                first_shares(shares, (i + 1) as nat),
                first_shares(shares, shares.len()),
            ),
    )
}

/// `b` begins where `a` ends.
pub open spec fn touches(axis: Axis, a: Area, b: Area) -> bool {
    match axis {
        Axis::Rows => a.y + a.height == b.y,
        Axis::Columns => a.x + a.width == b.x,
    }
}

/// `part` lies in `area`.
pub open spec fn within(area: Area, part: Area) -> bool {
    &&& area.x <= part.x && part.x + part.width <= area.x + area.width
    &&& area.y <= part.y && part.y + part.height <= area.y + area.height
}

/// `part` lies in `area` and reaches across it.
pub open spec fn is_slice(axis: Axis, area: Area, part: Area) -> bool {
    &&& within(area, part)
    &&& axis == Axis::Rows ==> part.x == area.x && part.width == area.width
    &&& axis == Axis::Columns ==> part.y == area.y && part.height == area.height
}

/// What a border leaves of an area: one cell less on each side, as far as there are any.
pub open spec fn inside(area: Area) -> Area {
    Area {
        x: if area.width == 0 || area.x == u16::MAX {
            area.x
        } else {
            (area.x + 1) as u16
        },
        y: if area.height == 0 || area.y == u16::MAX {
            area.y
        } else {
            (area.y + 1) as u16
        },
        width: if area.width < 2 {
            0
        } else {
            (area.width - 2) as u16
        },
        height: if area.height < 2 {
            0
        } else {
            (area.height - 2) as u16
        },
    }
}

/// `Layout::split` of ratatui with two or three `Constraint::Fill` parts that have at most three
/// shares together: the parts fill the area, as far as it lies within the coordinates, one after
/// the other, and each border between two of them lies at the cell border nearest to its share.
///
/// The solver is bound to keep both ends of a part within the area. The space before and between
/// the parts is held at nothing with a strength that all else that is asked of them does not come
/// near; growing outweighs the space behind them, and their proportion outweighs equal sizes. So
/// the best solution is the proportional one and no other. It is taken to hundredths of a cell and
/// then to cells, halves away from zero; halves and thirds of a cell come out as the nearest border.
#[verifier::external_body]
fn split_fill(axis: Axis, shares: &Vec<u16>, area: Area) -> (parts: Vec<Area>)
    requires
        2 <= shares@.len() <= 3,
        forall|i: int| 0 <= i < shares@.len() ==> 1 <= #[trigger] shares@[i],
        first_shares(shares@, shares@.len()) <= 3,
    ensures
        parts@ == divided(axis, shares@, area),
{
    let direction = match axis {
        Axis::Rows => Direction::Vertical,
        Axis::Columns => Direction::Horizontal,
    };
    let rect = Rect { x: area.x, y: area.y, width: area.width, height: area.height };
    let fill = shares.iter().map(|s| Constraint::Fill(*s));
    let parts = Layout::default().direction(direction).constraints(fill).split(rect);
    parts.iter().map(|r| Area { x: r.x, y: r.y, width: r.width, height: r.height }).collect()
}

/// `Block::inner` of ratatui, for a block with a border all round and no padding. Titles sit on the
/// border and take no room.
#[verifier::external_body]
fn block_inner(area: Area) -> (r: Area)
    ensures
        r == inside(area),
{
    let rect = Rect { x: area.x, y: area.y, width: area.width, height: area.height };
    let r = Block::new().borders(Borders::ALL).padding(Padding::ZERO).inner(rect);
    Area { x: r.x, y: r.y, width: r.width, height: r.height }
}

/// The areas of the dashboard.
#[derive(Clone, Copy, Debug)]
pub struct Places {
    /// The frame round loads and memory.
    pub upper: Area,
    /// The frame round the powers.
    pub lower: Area,
    pub ecpu: Area,
    pub pcpu: Area,
    pub memory: Area,
    pub gpu: Area,
    pub cpu_power: Area,
    pub gpu_power: Area,
    pub ane_power: Area,
}

/// Two thirds of the screen for loads and memory, in two rows of two, and one third for three
/// powers side by side.
pub open spec fn layout(area: Area) -> Places {
    let upper = part(Axis::Rows, area, 0, 2, 3);
    let lower = part(Axis::Rows, area, 2, 3, 3);
    let first = part(Axis::Rows, inside(upper), 0, 1, 2);
    let second = part(Axis::Rows, inside(upper), 1, 2, 2);
    Places {
        upper,
        lower,
        ecpu: part(Axis::Columns, first, 0, 1, 2),
        pcpu: part(Axis::Columns, first, 1, 2, 2),
        memory: part(Axis::Columns, second, 0, 1, 2),
        gpu: part(Axis::Columns, second, 1, 2, 2),
        cpu_power: part(Axis::Columns, inside(lower), 0, 1, 3),
        gpu_power: part(Axis::Columns, inside(lower), 1, 2, 3),
        ane_power: part(Axis::Columns, inside(lower), 2, 3, 3),
    }
}

/// Two halves side by side.
pub fn h_stack(area: Area) -> (r: (Area, Area))
    ensures
        r.0 == part(Axis::Columns, area, 0, 1, 2),
        r.1 == part(Axis::Columns, area, 1, 2, 2),
{
    halves(Axis::Columns, area)
}

fn halves(axis: Axis, area: Area) -> (r: (Area, Area))
    ensures
        r.0 == part(axis, area, 0, 1, 2),
        r.1 == part(axis, area, 1, 2, 2),
{
    let shares: Vec<u16> = vec![1, 1];
    proof {
        reveal_with_fuel(first_shares, 3);
    }
    let parts: Vec<Area> = split_fill(axis, &shares, area);
    (parts[0], parts[1])
}

/// The areas of a dashboard that covers `area`.
pub fn places(area: Area) -> (p: Places)
    ensures
        p == layout(area),
{
    proof {
        reveal_with_fuel(first_shares, 4);
    }
    let shares: Vec<u16> = vec![2, 1];
    let rows: Vec<Area> = split_fill(Axis::Rows, &shares, area);
    let (first, second): (Area, Area) = halves(Axis::Rows, block_inner(rows[0]));
    let (ecpu, pcpu): (Area, Area) = h_stack(first);
    let (memory, gpu): (Area, Area) = h_stack(second);
    let thirds: Vec<u16> = vec![1, 1, 1];
    let powers: Vec<Area> = split_fill(Axis::Columns, &thirds, block_inner(rows[1]));
    Places {
        upper: rows[0],
        lower: rows[1],
        ecpu,
        pcpu,
        memory,
        gpu,
        cpu_power: powers[0],
        gpu_power: powers[1],
        ane_power: powers[2],
    }
}

/// Borders are in order, the first at the start and the last at the end.
proof fn lemma_border(start: u16, length: u16, c: nat, d: nat, t: nat)
    requires
        c <= d <= t,
        t > 0,
    ensures
        start <= border(start, length, c, t) <= border(start, length, d, t) <= start + reach(
            start,
            length,
        ),
        border(start, length, 0, t) == start,
        border(start, length, t, t) == start + reach(start, length),
{
    let n = reach(start, length);
    let w = 2 * t;
    assert(n * c <= n * d <= n * t) by (nonlinear_arith)
        requires
            c <= d <= t,
    ;
    lemma_div_is_ordered((2 * (n * c) + t) as int, (2 * (n * d) + t) as int, w as int);
    lemma_div_is_ordered((2 * (n * d) + t) as int, (2 * (n * t) + t) as int, w as int);
    lemma_mul_basics(n as int);
    lemma_fundamental_div_mod_converse(t as int, w as int, 0, t as int);
    assert(2 * (n * t) + t == n * w + t) by (nonlinear_arith)
        requires
            w == 2 * t,
    ;
    lemma_fundamental_div_mod_converse((2 * (n * t) + t) as int, w as int, n as int, t as int);
    lemma_div_pos_is_pos((2 * (n * c) + t) as int, w as int);
}

/// A border is at most half a cell away from its share.
proof fn lemma_border_error(start: u16, length: u16, c: nat, t: nat)
    requires
        c <= t,
        t > 0,
    ensures
        ({
            let off = t * (border(start, length, c, t) - start) - reach(start, length) * c;
            -t <= 2 * off <= t
        }),
{
    let n = reach(start, length);
    let x = 2 * (n * c) + t;
    let w = 2 * t;
    let k = x / w;
    lemma_border(start, length, c, t, t);
    lemma_fundamental_div_mod(x as int, w as int);
    lemma_mod_bound(x as int, w as int);
    assert(w * k == 2 * (t * k)) by (nonlinear_arith)
        requires
            w == 2 * t,
    ;
    assert(n * c <= n * t) by (nonlinear_arith)
        requires
            c <= t,
    ;
    lemma_div_is_ordered(x as int, (2 * (n * t) + t) as int, w as int);
    assert(2 * (n * t) + t == n * w + t) by (nonlinear_arith)
        requires
            w == 2 * t,
    ;
    lemma_fundamental_div_mod_converse((2 * (n * t) + t) as int, w as int, n as int, t as int);
    assert(border(start, length, c, t) - start == k);
}

/// A part lies in its area, and the next one begins where it ends.
proof fn lemma_part(axis: Axis, area: Area, c: nat, d: nat, e: nat, t: nat)
    requires
        c <= d <= e <= t,
        t > 0,
    ensures
        is_slice(axis, area, part(axis, area, c, d, t)),
        is_slice(axis, area, part(axis, area, d, e, t)),
        touches(axis, part(axis, area, c, d, t), part(axis, area, d, e, t)),
{
    match axis {
        Axis::Rows => {
            lemma_border(area.y, area.height, c, d, t);
            lemma_border(area.y, area.height, d, e, t);
        },
        Axis::Columns => {
            lemma_border(area.x, area.width, c, d, t);
            lemma_border(area.x, area.width, d, e, t);
        },
    }
}

proof fn lemma_layout(area: Area)
    ensures
        ({
            let p = layout(area);
            let first = part(Axis::Rows, inside(p.upper), 0, 1, 2);
            let second = part(Axis::Rows, inside(p.upper), 1, 2, 2);
            &&& is_slice(Axis::Rows, area, p.upper)
            &&& is_slice(Axis::Rows, area, p.lower)
            &&& touches(Axis::Rows, p.upper, p.lower)
            &&& is_slice(Axis::Rows, inside(p.upper), first)
            &&& is_slice(Axis::Rows, inside(p.upper), second)
            &&& touches(Axis::Rows, first, second)
            &&& is_slice(Axis::Columns, first, p.ecpu)
            &&& is_slice(Axis::Columns, first, p.pcpu)
            &&& touches(Axis::Columns, p.ecpu, p.pcpu)
            &&& is_slice(Axis::Columns, second, p.memory)
            &&& is_slice(Axis::Columns, second, p.gpu)
            &&& touches(Axis::Columns, p.memory, p.gpu)
            &&& is_slice(Axis::Columns, inside(p.lower), p.cpu_power)
            &&& is_slice(Axis::Columns, inside(p.lower), p.gpu_power)
            &&& is_slice(Axis::Columns, inside(p.lower), p.ane_power)
            &&& touches(Axis::Columns, p.cpu_power, p.gpu_power)
            &&& touches(Axis::Columns, p.gpu_power, p.ane_power)
        }),
{
    let p = layout(area);
    lemma_part(Axis::Rows, area, 0, 2, 3, 3);
    lemma_part(Axis::Rows, inside(p.upper), 0, 1, 2, 2);
    lemma_part(Axis::Columns, part(Axis::Rows, inside(p.upper), 0, 1, 2), 0, 1, 2, 2);
    lemma_part(Axis::Columns, part(Axis::Rows, inside(p.upper), 1, 2, 2), 0, 1, 2, 2);
    lemma_part(Axis::Columns, inside(p.lower), 0, 1, 2, 3);
    lemma_part(Axis::Columns, inside(p.lower), 1, 2, 3, 3);
}

/// Panels side by side stand on one level and are equally high.
pub proof fn law_rows_are_level(area: Area)
    ensures
        ({
            let p = layout(area);
            &&& p.upper.x == area.x && p.upper.width == area.width
            &&& p.lower.x == area.x && p.lower.width == area.width
            &&& p.ecpu.y == p.pcpu.y && p.ecpu.height == p.pcpu.height
            &&& p.memory.y == p.gpu.y && p.memory.height == p.gpu.height
            &&& p.cpu_power.y == p.gpu_power.y && p.cpu_power.height == p.gpu_power.height
            &&& p.gpu_power.y == p.ane_power.y && p.gpu_power.height == p.ane_power.height
        }),
{
    lemma_layout(area);
}

/// Every panel lies within the screen, the loads and the memory within the upper frame, and the
/// powers within the lower one.
pub proof fn law_panels_are_on_screen(area: Area)
    ensures
        ({
            let p = layout(area);
            &&& within(area, p.upper)
            &&& within(area, p.lower)
            &&& within(p.upper, p.ecpu)
            &&& within(p.upper, p.pcpu)
            &&& within(p.upper, p.memory)
            &&& within(p.upper, p.gpu)
            &&& within(p.lower, p.cpu_power)
            &&& within(p.lower, p.gpu_power)
            &&& within(p.lower, p.ane_power)
        }),
{
    lemma_layout(area);
}

/// Panels that stand side by side or one under the other touch, and leave no cell between them.
pub proof fn law_panels_touch(area: Area)
    ensures
        ({
            let p = layout(area);
            &&& touches(Axis::Rows, p.upper, p.lower)
            &&& touches(Axis::Columns, p.ecpu, p.pcpu)
            &&& touches(Axis::Columns, p.memory, p.gpu)
            &&& touches(Axis::Rows, p.ecpu, p.memory)
            &&& touches(Axis::Columns, p.cpu_power, p.gpu_power)
            &&& touches(Axis::Columns, p.gpu_power, p.ane_power)
        }),
{
    lemma_layout(area);
}

/// Nothing is left free: the two frames fill the screen from top to bottom, and what is inside
/// each frame fills it from side to side.
pub proof fn law_panels_fill_the_screen(area: Area)
    ensures
        ({
            let p = layout(area);
            let up = inside(p.upper);
            let low = inside(p.lower);
            &&& p.upper.y == area.y
            &&& p.lower.y + p.lower.height == area.y + reach(area.y, area.height)
            &&& p.ecpu.y == up.y
            &&& p.memory.y + p.memory.height == up.y + reach(up.y, up.height)
            &&& p.ecpu.x == up.x && p.memory.x == up.x
            &&& p.pcpu.x + p.pcpu.width == up.x + reach(up.x, up.width)
            &&& p.gpu.x + p.gpu.width == up.x + reach(up.x, up.width)
            &&& p.cpu_power.x == low.x
            &&& p.ane_power.x + p.ane_power.width == low.x + reach(low.x, low.width)
        }),
{
    let p = layout(area);
    let up = inside(p.upper);
    let low = inside(p.lower);
    lemma_layout(area);
    lemma_border(area.y, area.height, 2, 3, 3);
    lemma_border(up.y, up.height, 1, 2, 2);
    lemma_border(up.x, up.width, 1, 2, 2);
    lemma_border(low.x, low.width, 2, 3, 3);
}

/// Sizes follow the shares as closely as cells allow: the upper frame has two thirds of the height,
/// to half a cell, and panels side by side differ by at most one cell in width.
pub proof fn law_sizes_follow_the_shares(area: Area)
    ensures
        ({
            let p = layout(area);
            let height = reach(area.y, area.height);
            &&& -3 <= 2 * (3 * p.upper.height - 2 * height) <= 3
            &&& -1 <= p.ecpu.width - p.pcpu.width <= 1
            &&& -1 <= p.memory.width - p.gpu.width <= 1
            &&& -1 <= p.ecpu.height - p.memory.height <= 1
            &&& -1 <= p.cpu_power.width - p.gpu_power.width <= 1
            &&& -1 <= p.gpu_power.width - p.ane_power.width <= 1
            &&& -1 <= p.cpu_power.width - p.ane_power.width <= 1
        }),
{
    let p = layout(area);
    let up = inside(p.upper);
    let low = inside(p.lower);
    lemma_layout(area);
    law_panels_fill_the_screen(area);
    lemma_border_error(area.y, area.height, 2, 3);
    lemma_border_error(up.y, up.height, 1, 2);
    lemma_border_error(up.x, up.width, 1, 2);
    lemma_border_error(low.x, low.width, 1, 3);
    lemma_border_error(low.x, low.width, 2, 3);
}

} // verus!
