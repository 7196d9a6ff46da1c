use vstd::prelude::*;

verus! {

/// How control can leave a block of statements.
#[derive(PartialEq, Eq, PartialOrd, Ord, Clone, Copy, Hash, Debug, Structural)]
pub enum ControlAction {
    End,
    Break,
    BreakImmediateLoop,
    Continue,
    LeaveSwitch,
    Proceed,
    Return,
}


/// The position of an action in declaration order.
pub open spec fn action_rank(a: ControlAction) -> int {
    match a {
        ControlAction::End => 0,
        ControlAction::Break => 1,
        ControlAction::BreakImmediateLoop => 2,
        ControlAction::Continue => 3,
        ControlAction::LeaveSwitch => 4,
        ControlAction::Proceed => 5,
        ControlAction::Return => 6,
    }
}

/// Whether every action in `actions` ends the function (`End` or `Return`).
pub open spec fn only_ends(actions: Set<ControlAction>) -> bool {
    forall|a: ControlAction|
        actions.contains(a) ==> a == ControlAction::End || a == ControlAction::Return
}

/// A set of control actions.
#[derive(Clone, Copy, Debug)]
pub struct ControlActionSet {
    end: bool,
    break_: bool,
    break_immediate_loop: bool,
    continue_: bool,
    leave_switch: bool,
    none: bool,
    return_: bool,
}

impl ControlActionSet {
    spec fn has(self, a: ControlAction) -> bool {
        match a {
            ControlAction::End => self.end,
            ControlAction::Break => self.break_,
            ControlAction::BreakImmediateLoop => self.break_immediate_loop,
            ControlAction::Continue => self.continue_,
            ControlAction::LeaveSwitch => self.leave_switch,
            ControlAction::Proceed => self.none,
            ControlAction::Return => self.return_,
        }
    }
}

impl View for ControlActionSet {
    type V = Set<ControlAction>;

    closed spec fn view(&self) -> Set<ControlAction> {
        Set::new(|a: ControlAction| self.has(a))
    }
}

impl ControlActionSet {
    pub fn new() -> (r: Self)
        ensures
            r@ == Set::<ControlAction>::empty(),
    {
        let r = ControlActionSet {
            end: false,
            break_: false,
            break_immediate_loop: false,
            continue_: false,
            leave_switch: false,
            none: false,
            return_: false,
        };
        assert(r@ =~= Set::<ControlAction>::empty());
        r
    }

    pub fn contains(&self, a: ControlAction) -> (r: bool)
        ensures
            r == self@.contains(a),
    {
        match a {
            ControlAction::End => self.end,
            ControlAction::Break => self.break_,
            ControlAction::BreakImmediateLoop => self.break_immediate_loop,
            ControlAction::Continue => self.continue_,
            ControlAction::LeaveSwitch => self.leave_switch,
            ControlAction::Proceed => self.none,
            ControlAction::Return => self.return_,
        }
    }

    fn set_flag(&mut self, a: ControlAction, value: bool)
        ensures
            forall|b: ControlAction| #[trigger]
                final(self).has(b) == if b == a {
                    value
                } else {
                    old(self).has(b)
                },
    {
        match a {
            ControlAction::End => self.end = value,
            ControlAction::Break => self.break_ = value,
            ControlAction::BreakImmediateLoop => self.break_immediate_loop = value,
            ControlAction::Continue => self.continue_ = value,
            ControlAction::LeaveSwitch => self.leave_switch = value,
            ControlAction::Proceed => self.none = value,
            ControlAction::Return => self.return_ = value,
        }
    }

    pub fn insert(&mut self, a: ControlAction)
        ensures
            final(self)@ == old(self)@.insert(a),
    {
        self.set_flag(a, true);
        assert(self@ =~= old(self)@.insert(a));
    }

    pub fn remove(&mut self, a: ControlAction)
        ensures
            final(self)@ == old(self)@.remove(a),
    {
        self.set_flag(a, false);
        assert(self@ =~= old(self)@.remove(a));
    }

    pub fn extend(&mut self, other: &Self)
        ensures
            final(self)@ == old(self)@.union(other@),
    {
        self.end = self.end || other.end;
        self.break_ = self.break_ || other.break_;
        self.break_immediate_loop = self.break_immediate_loop || other.break_immediate_loop;
        self.continue_ = self.continue_ || other.continue_;
        self.leave_switch = self.leave_switch || other.leave_switch;
        self.none = self.none || other.none;
        self.return_ = self.return_ || other.return_;
        assert(self@ =~= old(self)@.union(other@));
    }

    /// Whether every action in the set ends the function.
    pub fn only_ends(&self) -> (r: bool)
        ensures
            r == only_ends(self@),
    {
        let r = !self.break_ && !self.break_immediate_loop && !self.continue_ && !self.leave_switch
            && !self.none;
        if !r {
            assert(self@.contains(ControlAction::Break) || self@.contains(
                ControlAction::BreakImmediateLoop,
            ) || self@.contains(ControlAction::Continue) || self@.contains(
                ControlAction::LeaveSwitch,
            ) || self@.contains(ControlAction::Proceed));
        }
        r
    }

    /// Whether the set holds exactly the action `a`.
    pub fn is_only(&self, a: ControlAction) -> (r: bool)
        ensures
            r == (self@ == set![a]),
    {
        let mut expected = ControlActionSet::new();
        expected.insert(a);
        let r = self.end == expected.end && self.break_ == expected.break_
            && self.break_immediate_loop == expected.break_immediate_loop && self.continue_
            == expected.continue_ && self.leave_switch == expected.leave_switch && self.none
            == expected.none && self.return_ == expected.return_;
        assert(expected@ =~= set![a]);
        if r {
            assert(self@ =~= expected@);
        } else {
            assert(self@ != expected@) by {
                if self.end != expected.end {
                    assert(self@.contains(ControlAction::End) != expected@.contains(ControlAction::End));
                } else if self.break_ != expected.break_ {
                    assert(self@.contains(ControlAction::Break) != expected@.contains(ControlAction::Break));
                } else if self.break_immediate_loop != expected.break_immediate_loop {
                    assert(self@.contains(ControlAction::BreakImmediateLoop) != expected@.contains(
                        ControlAction::BreakImmediateLoop,
                    ));
                } else if self.continue_ != expected.continue_ {
                    assert(self@.contains(ControlAction::Continue) != expected@.contains(ControlAction::Continue));
                } else if self.leave_switch != expected.leave_switch {
                    assert(self@.contains(ControlAction::LeaveSwitch) != expected@.contains(
                        ControlAction::LeaveSwitch,
                    ));
                } else if self.none != expected.none {
                    assert(self@.contains(ControlAction::Proceed) != expected@.contains(ControlAction::Proceed));
                } else {
                    assert(self@.contains(ControlAction::Return) != expected@.contains(ControlAction::Return));
                }
            }
        }
        r
    }

    /// The actions of the set, in declaration order.
    pub fn to_vec(&self) -> (r: Vec<ControlAction>)
        ensures
            r@.to_set() == self@,
            forall|i: int, j: int|
                0 <= i < j < r@.len() ==> action_rank(#[trigger] r@[i]) < action_rank(#[trigger] r@[j]),
    {
        broadcast use vstd::seq_lib::group_seq_properties;

        let mut r: Vec<ControlAction> = Vec::new();
        if self.end {
            r.push(ControlAction::End);
        }
        assert(forall|b: ControlAction|
            #[trigger] r@.contains(b) <==> (self.has(b) && action_rank(b) <= 0));
        assert(forall|i: int| 0 <= i < r@.len() ==> action_rank(#[trigger] r@[i]) <= 0);
        if self.break_ {
            r.push(ControlAction::Break);
        }
        assert(forall|b: ControlAction|
            #[trigger] r@.contains(b) <==> (self.has(b) && action_rank(b) <= 1));
        assert(forall|i: int| 0 <= i < r@.len() ==> action_rank(#[trigger] r@[i]) <= 1);
        if self.break_immediate_loop {
            r.push(ControlAction::BreakImmediateLoop);
        }
        assert(forall|b: ControlAction|
            #[trigger] r@.contains(b) <==> (self.has(b) && action_rank(b) <= 2));
        assert(forall|i: int| 0 <= i < r@.len() ==> action_rank(#[trigger] r@[i]) <= 2);
        if self.continue_ {
            r.push(ControlAction::Continue);
        }
        assert(forall|b: ControlAction|
            #[trigger] r@.contains(b) <==> (self.has(b) && action_rank(b) <= 3));
        assert(forall|i: int| 0 <= i < r@.len() ==> action_rank(#[trigger] r@[i]) <= 3);
        if self.leave_switch {
            r.push(ControlAction::LeaveSwitch);
        }
        assert(forall|b: ControlAction|
            #[trigger] r@.contains(b) <==> (self.has(b) && action_rank(b) <= 4));
        assert(forall|i: int| 0 <= i < r@.len() ==> action_rank(#[trigger] r@[i]) <= 4);
        if self.none {
            r.push(ControlAction::Proceed);
        }
        assert(forall|b: ControlAction|
            #[trigger] r@.contains(b) <==> (self.has(b) && action_rank(b) <= 5));
        assert(forall|i: int| 0 <= i < r@.len() ==> action_rank(#[trigger] r@[i]) <= 5);
        if self.return_ {
            r.push(ControlAction::Return);
        }
        assert(forall|b: ControlAction|
            #[trigger] r@.contains(b) <==> (self.has(b) && action_rank(b) <= 6));
        assert(forall|i: int| 0 <= i < r@.len() ==> action_rank(#[trigger] r@[i]) <= 6);
        assert forall|a: ControlAction| r@.contains(a) <==> self@.contains(a) by {
            assert(action_rank(a) <= 6);
        }
        assert(r@.to_set() =~= self@);
        r
    }
}

} // verus!
