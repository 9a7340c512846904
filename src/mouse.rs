use vstd::prelude::*;

verus! {

/// The operations of the pointer-control protocol.
#[derive(Debug, Clone, Copy, PartialEq, Eq, Structural)]
pub enum Opcode {
    LeftDown,
    LeftUp,
    Move,
    Normalize,
    MoveGroup,
    NormalMove,
}

/// The byte that names an operation on the wire.
pub open spec fn opcode_byte(op: Opcode) -> u8 {
    match op {
        Opcode::LeftDown => 1,
        Opcode::LeftUp => 2,
        Opcode::Move => 3,
        Opcode::Normalize => 4,
        Opcode::MoveGroup => 5,
        Opcode::NormalMove => 6,
    }
}

impl Opcode {
    /// Converts the opcode into its byte.
    pub fn as_byte(&self) -> (r: u8)
        ensures
            r == opcode_byte(*self),
    {
        match self {
            Opcode::LeftDown => 1,
            Opcode::LeftUp => 2,
            Opcode::Move => 3,
            Opcode::Normalize => 4,
            Opcode::MoveGroup => 5,
            Opcode::NormalMove => 6,
        }
    }
}

/// One message to the pointer server: an operation, with a position or a
/// group of relative moves where the operation takes one.
pub struct Instruction {
    pub opcode: Opcode,
    pub position: Option<(i32, i32)>,
    pub group: Option<Vec<(i32, i32)>>,
}

/// The four bytes of `v`, least significant first.
pub open spec fn le_bytes(v: i32) -> Seq<u8> {
    let u = v as u32;
    seq![(u % 256) as u8, ((u / 256) % 256) as u8, ((u / 65536) % 256) as u8, (u / 16777216) as u8]
}

/// The moves of a group, each as its x then its y.
pub open spec fn group_bytes(g: Seq<(i32, i32)>) -> Seq<u8>
    decreases g.len(),
{
    if g.len() == 0 {
        Seq::empty()
    } else {
        group_bytes(g.drop_last()) + le_bytes(g.last().0) + le_bytes(g.last().1)
    }
}

/// The wire form of an instruction: the opcode byte; the position (zero
/// when there is none); then the number of moves of the group, modulo 256,
/// and the moves, or a zero byte when there is no group.
pub open spec fn encoding(op: Opcode, position: Option<(i32, i32)>, group: Option<Seq<(i32, i32)>>) -> Seq<u8> {
    let (x, y) = match position {
        Some(p) => p,
        None => (0i32, 0i32),
    };
    let head = seq![opcode_byte(op)] + le_bytes(x) + le_bytes(y);
    match group {
        Some(g) => head + seq![(g.len() % 256) as u8] + group_bytes(g),
        None => head + seq![0u8],
    }
}

/// Appends the four bytes of `v`, least significant first.
fn put_i32_le(bytes: &mut Vec<u8>, v: i32)
    ensures
        final(bytes)@ == old(bytes)@ + le_bytes(v),
{
    let u = v as u32;
    bytes.push((u % 256) as u8);
    bytes.push(((u / 256) % 256) as u8);
    bytes.push(((u / 65536) % 256) as u8);
    bytes.push((u / 16777216) as u8);
    assert(bytes@ =~= old(bytes)@ + le_bytes(v));
}

impl Instruction {
    /// The group of moves, as a sequence.
    pub open spec fn group_view(&self) -> Option<Seq<(i32, i32)>> {
        match self.group {
            Some(g) => Some(g@),
            None => None,
        }
    }

    /// An instruction with no position and no group.
    pub fn empty(opcode: Opcode) -> (r: Self)
        ensures
            r.opcode == opcode,
            r.position is None,
            r.group is None,
    {
        Instruction { opcode, position: None, group: None }
    }

    /// A move of the pointer by (`dx`, `dy`).
    pub fn delta(dx: i32, dy: i32) -> (r: Self)
        ensures
            r.opcode == Opcode::Move,
            r.position == Some((dx, dy)),
            r.group is None,
    {
        Instruction { opcode: Opcode::Move, position: Some((dx, dy)), group: None }
    }

    /// A move of the pointer to (`x`, `y`).
    pub fn absolute(x: i32, y: i32) -> (r: Self)
        ensures
            r.opcode == Opcode::NormalMove,
            r.position == Some((x, y)),
            r.group is None,
    {
        Instruction { opcode: Opcode::NormalMove, position: Some((x, y)), group: None }
    }

    /// A group of relative moves, made with the button held.
    pub fn group(group: &Vec<(i32, i32)>) -> (r: Self)
        ensures
            r.opcode == Opcode::MoveGroup,
            r.position is None,
            r.group_view() == Some(group@),
    {
        let mut copy: Vec<(i32, i32)> = Vec::new();
        let mut i: usize = 0;
        while i < group.len()
            invariant
                i <= group@.len(),
                copy@ == group@.subrange(0, i as int),
            decreases group@.len() - i,
        {
            copy.push(group[i]);
            assert(copy@ =~= group@.subrange(0, i + 1));
            i += 1;
        }
        assert(copy@ =~= group@);
        Instruction { opcode: Opcode::MoveGroup, position: None, group: Some(copy) }
    }

    /// The bytes that carry this instruction to the pointer server.
    pub fn serialize(&self) -> (r: Vec<u8>)
        ensures
            r@ == encoding(self.opcode, self.position, self.group_view()),
    {
        let position = match self.position {
            Some((x, y)) => (x, y),
            None => (0, 0),
        };
        let mut bytes: Vec<u8> = Vec::new();
        bytes.push(self.opcode.as_byte());
        put_i32_le(&mut bytes, position.0);
        put_i32_le(&mut bytes, position.1);
        let ghost head = bytes@;
        assert(head =~= seq![opcode_byte(self.opcode)] + le_bytes(position.0) + le_bytes(position.1));
        match &self.group {
            Some(group) => {
                bytes.push((group.len() % 256) as u8);
                let ghost counted = bytes@;
                let mut i: usize = 0;
                while i < group.len()
                    invariant
                        i <= group@.len(),
                        bytes@ == counted + group_bytes(group@.subrange(0, i as int)),
                    decreases group@.len() - i,
                {
                    let (x, y) = group[i];
                    put_i32_le(&mut bytes, x);
                    put_i32_le(&mut bytes, y);
                    proof {
                        let s = group@.subrange(0, i + 1);
                        assert(s.drop_last() =~= group@.subrange(0, i as int));
                        assert(s.last() == (x, y));
                        assert(bytes@ =~= counted + group_bytes(s));
                    }
                    i += 1;
                }
                assert(group@.subrange(0, group@.len() as int) =~= group@);
                assert(bytes@ =~= encoding(self.opcode, self.position, self.group_view()));
            },
            None => {
                bytes.push(0);
                assert(bytes@ =~= encoding(self.opcode, self.position, self.group_view()));
            },
        }
        bytes
    }
}

/// Why a pointer move was refused.
#[derive(Debug, PartialEq, Eq, Structural)]
pub enum MouseError {
    /// A move to a position was asked for before the pointer was normalized.
    NotNormalized,
}

/// What the client knows of the remote pointer: whether the left button is
/// down, whether the pointer was normalized (so that positions mean screen
/// positions), and where it stands.
#[derive(Debug, Clone, Copy)]
pub struct MouseState {
    pub left: bool,
    pub normalized: bool,
    pub current: (i32, i32),
}

impl MouseState {
    /// A fresh connection: button up, not normalized, at (0, 0).
    pub fn new() -> (r: Self)
        ensures
            r == (MouseState { left: false, normalized: false, current: (0, 0) }),
    {
        MouseState { left: false, normalized: false, current: (0, 0) }
    }

    /// Normalizing: the instruction to send, and the state once it is sent.
    pub fn normalize(&self) -> (r: (Instruction, MouseState))
        ensures
            r.0.opcode == Opcode::Normalize,
            r.0.position is None,
            r.0.group is None,
            r.1 == (MouseState { left: self.left, normalized: true, current: (0, 0) }),
    {
        (Instruction::empty(Opcode::Normalize), MouseState { left: self.left, normalized: true, current: (0, 0) })
    }

    /// Pressing (`Some(true)`), releasing (`Some(false)`) or toggling
    /// (`None`) the left button.
    pub fn button(&self, down: Option<bool>) -> (r: (Instruction, MouseState))
        ensures
            r.1.left == match down {
                Some(d) => d,
                None => !self.left,
            },
            r.1.normalized == self.normalized,
            r.1.current == self.current,
            r.0.opcode == (if r.1.left { Opcode::LeftDown } else { Opcode::LeftUp }),
            r.0.position is None,
            r.0.group is None,
    {
        let new_state = match down {
            Some(state) => state,
            None => !self.left,
        };
        let opcode = if new_state {
            Opcode::LeftDown
        } else {
            Opcode::LeftUp
        };
        (Instruction::empty(opcode), MouseState { left: new_state, normalized: self.normalized, current: self.current })
    }

    /// A move by (`dx`, `dy`).
    pub fn move_relative(&self, dx: i32, dy: i32) -> (r: (Instruction, MouseState))
        requires
            i32::MIN <= self.current.0 + dx <= i32::MAX,
            i32::MIN <= self.current.1 + dy <= i32::MAX,
        ensures
            r.0.opcode == Opcode::Move,
            r.0.position == Some((dx, dy)),
            r.0.group is None,
            r.1.left == self.left,
            r.1.normalized == self.normalized,
            r.1.current.0 == self.current.0 + dx,
            r.1.current.1 == self.current.1 + dy,
    {
        (
            Instruction::delta(dx, dy),
            MouseState {
                left: self.left,
                normalized: self.normalized,
                current: (self.current.0 + dx, self.current.1 + dy),
            },
        )
    }

    /// A group of relative moves; the state then records the last of them
    /// as the position.
    pub fn move_group(&self, group: &Vec<(i32, i32)>) -> (r: (Instruction, MouseState))
        requires
            group@.len() > 0,
        ensures
            r.0.opcode == Opcode::MoveGroup,
            r.0.position is None,
            r.0.group_view() == Some(group@),
            r.1 == (MouseState { left: self.left, normalized: self.normalized, current: group@.last() }),
    {
        let last = group[group.len() - 1];
        (Instruction::group(group), MouseState { left: self.left, normalized: self.normalized, current: last })
    }

    /// A move to `position`: with `normal`, an absolute move that also
    /// normalizes; without it, the relative move from the current position,
    /// refused unless the pointer was normalized.
    pub fn move_absolute(&self, position: (i32, i32), normal: bool) -> (r: Result<(Instruction, MouseState), MouseError>)
        requires
            i32::MIN <= position.0 - self.current.0 <= i32::MAX,
            i32::MIN <= position.1 - self.current.1 <= i32::MAX,
        ensures
            !self.normalized && !normal <==> r == Err::<(Instruction, MouseState), MouseError>(MouseError::NotNormalized),
            r matches Ok((ins, next)) ==> next == (MouseState {
                left: self.left,
                normalized: true,
                current: position,
            }) && ins.group is None && (if normal {
                ins.opcode == Opcode::NormalMove && ins.position == Some(position)
            } else {
                ins.opcode == Opcode::Move && ins.position == Some(
                    ((position.0 - self.current.0) as i32, (position.1 - self.current.1) as i32),
                )
            }),
    {
        if !self.normalized && !normal {
            return Err(MouseError::NotNormalized);
        }
        if !normal {
            let (x, y) = position;
            let dx = x - self.current.0;
            let dy = y - self.current.1;
            Ok(self.move_relative(dx, dy))
        } else {
            Ok((Instruction::absolute(position.0, position.1), MouseState { left: self.left, normalized: true, current: position }))
        }
    }
}

} // verus!
