//! Submarine navigation: parsing movement instructions and tracking position
//! under the naive and the aim-based interpretation.

use vstd::prelude::*;
use crate::text::{chars_of, copy_range, find_first, is_i64_str, signed_value, parse_i64};

verus! {

/// Why an instruction line was rejected: no space between direction and
/// amount, an unparsable amount, or an unknown direction word.
#[derive(Clone, Copy, Debug, PartialEq, Eq, Structural)]
pub enum NavError {
    InvalidInstruction,
    InvalidAmount,
    UnknownDirection,
}

/// A parsed movement instruction.
#[derive(Clone, Copy, Debug, PartialEq, Eq, Structural)]
pub enum Command {
    Forward(i64),
    Down(i64),
    Up(i64),
}

/// The instruction a line denotes: the word before the first space and a
/// signed amount after it.
pub open spec fn parse_command(s: Seq<char>) -> Option<Command> {
    let i = crate::text::first_occurrence(s, seq![' '], 0);
    if i < 0 {
        None
    } else {
        let dir = s.subrange(0, i);
        let rest = s.subrange(i + 1, s.len() as int);
        if !is_i64_str(rest) {
            None
        } else if dir == "forward"@ {
            Some(Command::Forward(signed_value(rest) as i64))
        } else if dir == "up"@ {
            Some(Command::Up(signed_value(rest) as i64))
        } else if dir == "down"@ {
            Some(Command::Down(signed_value(rest) as i64))
        } else {
            None
        }
    }
}

/// Which failure an unparsable line reports, in the order the checks run.
pub open spec fn command_error(s: Seq<char>) -> NavError {
    let i = crate::text::first_occurrence(s, seq![' '], 0);
    if i < 0 {
        NavError::InvalidInstruction
    } else if !is_i64_str(s.subrange(i + 1, s.len() as int)) {
        NavError::InvalidAmount
    } else {
        NavError::UnknownDirection
    }
}

/// Parses one instruction line.
pub fn parse_instruction(line: &str) -> (r: Result<Command, NavError>)
    ensures
        match r {
            Result::Ok(c) => parse_command(line@) == Some(c),
            Result::Err(e) => parse_command(line@) is None && e == command_error(line@),
        },
{
    let chars = chars_of(line);
    let mut sep: Vec<char> = Vec::new();
    sep.push(' ');
    proof {
        assert(sep@ =~= seq![' ']);
    }
    let i = match find_first(&chars, &sep) {
        Some(i) => i,
        None => {
            return Err(NavError::InvalidInstruction);
        },
    };
    let dir = copy_range(&chars, 0, i);
    let rest = copy_range(&chars, i + 1, chars.len());
    let amount = match parse_i64(&rest) {
        Some(a) => a,
        None => {
            return Err(NavError::InvalidAmount);
        },
    };
    let forward = chars_of("forward");
    let up = chars_of("up");
    let down = chars_of("down");
    if crate::text::chars_eq(&dir, &forward) {
        Ok(Command::Forward(amount))
    } else if crate::text::chars_eq(&dir, &up) {
        Ok(Command::Up(amount))
    } else if crate::text::chars_eq(&dir, &down) {
        Ok(Command::Down(amount))
    } else {
        Err(NavError::UnknownDirection)
    }
}

/// A position tracker that reacts to movement instructions.  `can_apply` and
/// `apply_spec` give each implementation's transition relation, so that the
/// handlers' effect is pinned exactly; `can_apply` excludes the amounts on
/// which the arithmetic would overflow.
pub trait Navigation: Sized {
    spec fn can_apply(&self, c: Command) -> bool;

    spec fn apply_spec(&self, c: Command) -> Self;

    spec fn hpos(&self) -> int;

    spec fn vpos(&self) -> int;

    fn handle_forward(&mut self, amount: i64)
        requires
            old(self).can_apply(Command::Forward(amount)),
        ensures
            *final(self) == old(self).apply_spec(Command::Forward(amount)),
    ;

    fn handle_down(&mut self, amount: i64)
        requires
            old(self).can_apply(Command::Down(amount)),
        ensures
            *final(self) == old(self).apply_spec(Command::Down(amount)),
    ;

    fn handle_up(&mut self, amount: i64)
        requires
            old(self).can_apply(Command::Up(amount)),
        ensures
            *final(self) == old(self).apply_spec(Command::Up(amount)),
    ;

    fn vertical_position(&self) -> (r: i64)
        ensures
            r == self.vpos(),
    ;

    fn horizontal_position(&self) -> (r: i64)
        ensures
            r == self.hpos(),
    ;
}

/// Straight position tracking: forward moves horizontally, down and up move
/// vertically.
#[derive(Debug)]
pub struct NaiveNavigation {
    pub horizontal: i64,
    pub vertical: i64,
}

impl Default for NaiveNavigation {
    fn default() -> (r: Self)
        ensures
            r.horizontal == 0 && r.vertical == 0,
    {
        NaiveNavigation { horizontal: 0, vertical: 0 }
    }
}

impl Navigation for NaiveNavigation {
    open spec fn can_apply(&self, c: Command) -> bool {
        match c {
            Command::Forward(a) => i64::MIN <= self.horizontal + a <= i64::MAX,
            Command::Down(a) => i64::MIN <= self.vertical + a <= i64::MAX,
            Command::Up(a) => i64::MIN <= self.vertical - a <= i64::MAX,
        }
    }

    open spec fn apply_spec(&self, c: Command) -> Self {
        match c {
            Command::Forward(a) => NaiveNavigation {
                horizontal: (self.horizontal + a) as i64,
                vertical: self.vertical,
            },
            Command::Down(a) => NaiveNavigation {
                horizontal: self.horizontal,
                vertical: (self.vertical + a) as i64,
            },
            Command::Up(a) => NaiveNavigation {
                horizontal: self.horizontal,
                vertical: (self.vertical - a) as i64,
            },
        }
    }

    open spec fn hpos(&self) -> int {
        self.horizontal as int
    }

    open spec fn vpos(&self) -> int {
        self.vertical as int
    }

    fn handle_forward(&mut self, amount: i64) {
        self.horizontal = self.horizontal + amount;
    }

    fn handle_down(&mut self, amount: i64) {
        self.vertical = self.vertical + amount;
    }

    fn handle_up(&mut self, amount: i64) {
        self.vertical = self.vertical - amount;
    }

    fn vertical_position(&self) -> (r: i64) {
        self.vertical
    }

    fn horizontal_position(&self) -> (r: i64) {
        self.horizontal
    }
}

/// Aim-based tracking: down and up tilt the aim, forward moves horizontally
/// and descends by aim times the amount.
#[derive(Debug)]
pub struct AimNavigation {
    pub naive: NaiveNavigation,
    pub aim: i64,
}

impl Default for AimNavigation {
    fn default() -> (r: Self)
        ensures
            r.naive.horizontal == 0 && r.naive.vertical == 0 && r.aim == 0,
    {
        AimNavigation { naive: NaiveNavigation { horizontal: 0, vertical: 0 }, aim: 0 }
    }
}

impl Navigation for AimNavigation {
    open spec fn can_apply(&self, c: Command) -> bool {
        match c {
            Command::Forward(a) => i64::MIN <= self.naive.horizontal + a <= i64::MAX && i64::MIN
                <= self.aim * a <= i64::MAX && i64::MIN <= self.naive.vertical + self.aim * a
                <= i64::MAX,
            Command::Down(a) => i64::MIN <= self.aim + a <= i64::MAX,
            Command::Up(a) => i64::MIN <= self.aim - a <= i64::MAX,
        }
    }

    open spec fn apply_spec(&self, c: Command) -> Self {
        match c {
            Command::Forward(a) => AimNavigation {
                naive: NaiveNavigation {
                    horizontal: (self.naive.horizontal + a) as i64,
                    vertical: (self.naive.vertical + self.aim * a) as i64,
                },
                aim: self.aim,
            },
            Command::Down(a) => AimNavigation {
                naive: NaiveNavigation { ..self.naive },
                aim: (self.aim + a) as i64,
            },
            Command::Up(a) => AimNavigation {
                naive: NaiveNavigation { ..self.naive },
                aim: (self.aim - a) as i64,
            },
        }
    }

    open spec fn hpos(&self) -> int {
        self.naive.horizontal as int
    }

    open spec fn vpos(&self) -> int {
        self.naive.vertical as int
    }

    fn handle_forward(&mut self, amount: i64) {
        self.naive.horizontal = self.naive.horizontal + amount;
        self.naive.vertical = self.naive.vertical + self.aim * amount;
    }

    fn handle_down(&mut self, amount: i64) {
        self.aim = self.aim + amount;
    }

    fn handle_up(&mut self, amount: i64) {
        self.aim = self.aim - amount;
    }

    fn vertical_position(&self) -> (r: i64) {
        self.naive.vertical
    }

    fn horizontal_position(&self) -> (r: i64) {
        self.naive.horizontal
    }
}

/// Views of a sequence of instruction lines.
pub open spec fn line_views(v: Seq<String>) -> Seq<Seq<char>> {
    Seq::new(v.len(), |i: int| v[i]@)
}

/// The state after running the instructions in order, stopping at the first
/// unparsable line.
pub open spec fn run_commands<N: Navigation>(n: N, lines: Seq<Seq<char>>) -> N
    decreases lines.len(),
{
    if lines.len() == 0 {
        n
    } else {
        match parse_command(lines[0]) {
            Option::None => n,
            Option::Some(c) => run_commands(n.apply_spec(c), lines.drop_first()),
        }
    }
}

/// Whether every applied step along that run stays within bounds.
pub open spec fn can_run<N: Navigation>(n: N, lines: Seq<Seq<char>>) -> bool
    decreases lines.len(),
{
    if lines.len() == 0 {
        true
    } else {
        match parse_command(lines[0]) {
            Option::None => true,
            Option::Some(c) => n.can_apply(c) && can_run(n.apply_spec(c), lines.drop_first()),
        }
    }
}

/// Index of the first unparsable line, or the line count if all parse.
pub open spec fn first_bad_line(lines: Seq<Seq<char>>) -> int
    decreases lines.len(),
{
    if lines.len() == 0 {
        0
    } else if parse_command(lines[0]) is None {
        0
    } else {
        1 + first_bad_line(lines.drop_first())
    }
}

/// Feeds each instruction line to the tracker, stopping with the first
/// line's error if one does not parse.
pub fn navigate<N: Navigation>(instructions: &Vec<String>, navigation: &mut N) -> (r: Result<
    (),
    NavError,
>)
    requires
        can_run(*old(navigation), line_views(instructions@)),
    ensures
        *final(navigation) == run_commands(*old(navigation), line_views(instructions@)),
        r == (if first_bad_line(line_views(instructions@)) == line_views(instructions@).len() {
            Result::<(), NavError>::Ok(())
        } else {
            Result::<(), NavError>::Err(
                command_error(line_views(instructions@)[first_bad_line(line_views(instructions@))]),
            )
        }),
{
    let ghost whole = line_views(instructions@);
    proof {
        assert(whole.skip(0) =~= whole);
    }
    let mut i: usize = 0;
    while i < instructions.len()
        invariant
            i <= instructions@.len(),
            whole == line_views(instructions@),
            whole.len() == instructions@.len(),
            can_run(*navigation, whole.skip(i as int)),
            run_commands(*navigation, whole.skip(i as int)) == run_commands(
                *old(navigation),
                whole,
            ),
            first_bad_line(whole) == i + first_bad_line(whole.skip(i as int)),
            forall|k: int| 0 <= k < i ==> parse_command(#[trigger] whole[k]) is Some,
        decreases instructions@.len() - i,
    {
        let ghost rest = whole.skip(i as int);
        proof {
            assert(rest[0] == whole[i as int]);
            assert(rest.drop_first() =~= whole.skip(i + 1));
        }
        let cmd = match parse_instruction(instructions[i].as_str()) {
            Ok(c) => c,
            Err(e) => {
                proof {
                    assert(first_bad_line(rest) == 0);
                }
                return Err(e);
            },
        };
        match cmd {
            Command::Forward(a) => navigation.handle_forward(a),
            Command::Down(a) => navigation.handle_down(a),
            Command::Up(a) => navigation.handle_up(a),
        }
        i = i + 1;
    }
    proof {
        assert(whole.skip(whole.len() as int) =~= Seq::<Seq<char>>::empty());
    }
    Ok(())
}

} // verus!
