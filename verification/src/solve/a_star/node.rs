use vstd::prelude::*;
use crate::point::point::Point;
use crate::tools::math::{get_dist, spec_capped_dist};

verus! {

/// The step count and the cost of a cell that the search has not reached.
pub const UNREACHED: u64 = 0xffff_ffff_ffff_fffe;

/// What a move from one cell centre to the next adds to the step count.
pub const STEP: u64 = 1;

/// `a + b`, or the largest `u64` where that does not fit.
pub open spec fn spec_sum(a: u64, b: u64) -> u64 {
    if a + b > u64::MAX {
        u64::MAX
    } else {
        (a + b) as u64
    }
}

/// What the search knows of one cell.
#[derive(Clone, Copy, Debug, PartialEq, Eq, PartialOrd, Ord)]
pub struct Node {
    /// The cell from which this one was reached.
    pub parent: Option<Point>,
    /// Steps from the start plus the distance left to the end.
    pub cost: u64,
    /// Steps from the start: moves from one cell centre to the next.
    pub steps: u64,
    pub pos: Point,
    pub end: Point,
}

impl Node {
    /// The steps of a cell reached from `parent`.
    pub open spec fn spec_steps_from(parent: Node) -> u64 {
        spec_sum(parent.steps, STEP)
    }

    /// The cost of this cell when it is `steps` from the start.
    pub open spec fn spec_cost_at(self, steps: u64) -> u64 {
        spec_sum(steps, spec_capped_dist(self.pos, self.end))
    }

    /// A cell that has not been reached.
    pub fn new(pos: Point, end: &Point) -> (node: Node)
        ensures
            node == (Node { parent: None, cost: UNREACHED, steps: UNREACHED, pos: pos, end: *end }),
    {
        Node { parent: None, cost: UNREACHED, steps: UNREACHED, end: *end, pos }
    }

    /// The cell from which this one was reached, if it was reached from one.
    pub fn get_parent(&self) -> (parent: &Option<Point>)
        ensures
            *parent == self.parent,
    {
        &self.parent
    }

    /// Steps from the start plus the distance left to the end.
    pub fn get_cost(&self) -> (cost: u64)
        ensures
            cost == self.cost,
    {
        self.cost
    }

    /// The cell that this node stands for.
    pub fn get_pos(&self) -> (pos: Point)
        ensures
            pos == self.pos,
    {
        self.pos
    }

    /// Records that this cell is reached from `parent`.
    pub fn update(&mut self, parent: &Node)
        ensures
            *final(self) == (Node {
                parent: Some(parent.pos),
                steps: Node::spec_steps_from(*parent),
                cost: old(self).spec_cost_at(Node::spec_steps_from(*parent)),
                ..*old(self)
            }),
    {
        let steps: u64 = self.calculate_steps(parent);
        let cost: u64 = self.calculate_cost_steps_given(steps);
        self.parent = Some(parent.get_pos());
        self.cost = cost;
        self.steps = steps;
    }

    /// The steps that this cell would be from the start if it were reached
    /// from `parent`: one move more.
    pub fn calculate_steps(&self, parent: &Node) -> (steps: u64)
        ensures
            steps == Node::spec_steps_from(*parent),
    {
        let before: u64 = parent.get_steps();
        if before > u64::MAX - STEP {
            u64::MAX
        } else {
            before + STEP
        }
    }

    /// Steps from the start.
    pub fn get_steps(&self) -> (steps: u64)
        ensures
            steps == self.steps,
    {
        self.steps
    }

    /// Makes this cell the start of the search: no steps, and the distance to
    /// the end as cost.
    pub fn set_start_node(&mut self)
        ensures
            *final(self) == (Node {
                steps: 0,
                cost: spec_capped_dist(old(self).pos, old(self).end),
                ..*old(self)
            }),
    {
        self.steps = 0;
        self.cost = get_dist(&self.pos, &self.end);
    }

    /// The cost that this cell would have if it were reached from `parent`.
    pub fn calculate_cost(&self, parent: &Node) -> (cost: u64)
        ensures
            cost == self.spec_cost_at(Node::spec_steps_from(*parent)),
    {
        let steps: u64 = self.calculate_steps(parent);
        self.calculate_cost_steps_given(steps)
    }

    /// The cost of this cell at `steps` from the start: the steps plus the
    /// distance to the end.
    pub fn calculate_cost_steps_given(&self, steps: u64) -> (cost: u64)
        ensures
            cost == self.spec_cost_at(steps),
    {
        let h_score: u64 = get_dist(&self.pos, &self.end);
        if h_score > u64::MAX - steps {
            u64::MAX
        } else {
            steps + h_score
        }
    }
}

} // verus!
