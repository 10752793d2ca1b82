//! How deep the tagged values in a run of bytes are nested, found by
//! walking over them without decoding what they hold.

use vstd::prelude::*;

verus! {

/// The deepest nesting of lists and compounds that is walked into.
pub const DEEPEST: usize = 512;

/// A list or a compound that the walk is inside of: for a list, the kind of
/// its items and how many of them are still to come.
#[derive(Clone, Copy, Debug, PartialEq, Eq, Structural)]
pub struct Frame {
    pub list: bool,
    pub element: u8,
    pub left: u32,
}

/// Two bytes as a number, the first counting most.
pub open spec fn be16(bytes: Seq<u8>, at: int) -> int {
    bytes[at] * 256 + bytes[at + 1]
}

/// Four bytes as a number without sign, the first counting most.
pub open spec fn be32(bytes: Seq<u8>, at: int) -> int {
    ((bytes[at] * 256 + bytes[at + 1]) * 256 + bytes[at + 2]) * 256 + bytes[at + 3]
}

/// Where the bytes of a value without further values end, which starts at
/// `at` and has a length of `n` items of `size` bytes, counted in four bytes
/// before them.
pub open spec fn after_counted(bytes: Seq<u8>, at: int, size: int) -> Option<(int, Option<Frame>)> {
    if at + 4 <= bytes.len() && be32(bytes, at) < 0x8000_0000 && at + 4 + be32(bytes, at) * size
        <= bytes.len() {
        Some((at + 4 + be32(bytes, at) * size, None))
    } else {
        None
    }
}

/// Where the bytes of a value of a fixed size end.
pub open spec fn after_fixed(bytes: Seq<u8>, at: int, size: int) -> Option<(int, Option<Frame>)> {
    if at + size <= bytes.len() {
        Some((at + size, None))
    } else {
        None
    }
}

/// Where the walk stands after it has come to a value of the kind `kind`
/// at `at`: behind the value, where that holds no further values, and
/// else behind its head, with the frame of the list or compound that it
/// has entered. Nothing where the bytes end too early, a length is below
/// zero, or the kind is none.
pub open spec fn after_value(bytes: Seq<u8>, kind: u8, at: int) -> Option<(int, Option<Frame>)> {
    if kind == 1 {
        after_fixed(bytes, at, 1)
    } else if kind == 2 {
        after_fixed(bytes, at, 2)
    } else if kind == 3 || kind == 5 {
        after_fixed(bytes, at, 4)
    } else if kind == 4 || kind == 6 {
        after_fixed(bytes, at, 8)
    } else if kind == 7 {
        after_counted(bytes, at, 1)
    } else if kind == 8 {
        if at + 2 <= bytes.len() && at + 2 + be16(bytes, at) <= bytes.len() {
            Some((at + 2 + be16(bytes, at), None))
        } else {
            None
        }
    } else if kind == 9 {
        if at + 5 <= bytes.len() && bytes[at] <= 12 && be32(bytes, at + 1) < 0x8000_0000 && !(
        bytes[at] == 0 && be32(bytes, at + 1) != 0) {
            Some(
                (
                    at + 5,
                    Some(
                        Frame { list: true, element: bytes[at], left: be32(bytes, at + 1) as u32 },
                    ),
                ),
            )
        } else {
            None
        }
    } else if kind == 10 {
        Some((at, Some(Frame { list: false, element: 0, left: 0 })))
    } else if kind == 11 {
        after_counted(bytes, at, 4)
    } else if kind == 12 {
        after_counted(bytes, at, 8)
    } else {
        None
    }
}

/// Where a walk stands after a step.
pub ghost enum Step {
    /// The outermost compound has ended.
    Done,
    /// The bytes cannot be walked, or are nested too deep.
    Fail,
    /// The walk goes on at a place, inside of the frames given.
    On(int, Seq<Frame>),
}

/// The frames after a value was come to: the frame that the value has
/// entered is put on top, if there is one and room for it.
pub open spec fn entered(frames: Seq<Frame>, at: int, enter: Option<Frame>) -> Step {
    match enter {
        None => Step::On(at, frames),
        Some(frame) => if frames.len() >= 512 {
            Step::Fail
        } else {
            Step::On(at, frames.push(frame))
        },
    }
}

/// One step of the walk from `at`, inside of `frames`. In a list with
/// items to come, the walk comes to the next item; a list without ends. In
/// a compound, the walk comes to the next member, behind its kind and its
/// name; the kind 0 ends the compound.
pub open spec fn step(bytes: Seq<u8>, at: int, frames: Seq<Frame>) -> Step {
    if frames.len() == 0 {
        Step::Done
    } else {
        let top = frames.last();
        let below = frames.drop_last();
        if top.list {
            if top.left == 0 {
                Step::On(at, below)
            } else {
                match after_value(bytes, top.element, at) {
                    None => Step::Fail,
                    Some((next, enter)) => entered(
                        below.push(Frame { list: true, element: top.element, left: (top.left - 1) as u32 }),
                        next,
                        enter,
                    ),
                }
            }
        } else if at >= bytes.len() {
            Step::Fail
        } else if bytes[at] == 0 {
            if below.len() == 0 {
                Step::Done
            } else {
                Step::On(at + 1, below)
            }
        } else if at + 3 <= bytes.len() && at + 3 + be16(bytes, at + 1) <= bytes.len() {
            match after_value(bytes, bytes[at], at + 3 + be16(bytes, at + 1)) {
                None => Step::Fail,
                Some((next, enter)) => entered(frames, next, enter),
            }
        } else {
            Step::Fail
        }
    }
}

/// Whether the walk from `at`, inside of `frames`, comes to the end of the
/// outermost compound within `fuel` steps.
pub open spec fn walks(bytes: Seq<u8>, at: int, frames: Seq<Frame>, fuel: nat) -> bool
    decreases fuel,
{
    if fuel == 0 {
        false
    } else {
        match step(bytes, at, frames) {
            Step::Done => true,
            Step::Fail => false,
            Step::On(next, inside) => walks(bytes, next, inside, (fuel - 1) as nat),
        }
    }
}

/// Whether the bytes can be walked as one compound with a name, in which
/// nothing is nested deeper than 512 levels. Three steps for each byte are
/// more than a walk takes.
pub open spec fn shallow(bytes: Seq<u8>) -> bool {
    bytes.len() >= 3 && bytes[0] == 10 && 3 + be16(bytes, 1) <= bytes.len() && walks(
        bytes,
        3 + be16(bytes, 1),
        seq![Frame { list: false, element: 0, left: 0 }],
        (3 * bytes.len() + 3) as nat,
    )
}

fn read16(bytes: &[u8], at: usize) -> (n: usize)
    requires
        at + 2 <= bytes@.len(),
    ensures
        n == be16(bytes@, at as int),
        n < 0x1_0000,
{
    bytes[at] as usize * 256 + bytes[at + 1] as usize
}

fn read32(bytes: &[u8], at: usize) -> (n: u64)
    requires
        at + 4 <= bytes@.len(),
    ensures
        n == be32(bytes@, at as int),
        n < 0x1_0000_0000,
{
    ((bytes[at] as u64 * 256 + bytes[at + 1] as u64) * 256 + bytes[at + 2] as u64) * 256
        + bytes[at + 3] as u64
}

fn end_fixed(bytes: &[u8], at: usize, size: usize) -> (r: Option<(usize, Option<Frame>)>)
    requires
        at <= bytes@.len(),
        size <= 8,
    ensures
        match r {
            Some((next, enter)) => after_fixed(bytes@, at as int, size as int) == Some(
                (next as int, enter),
            ) && next <= bytes@.len(),
            None => after_fixed(bytes@, at as int, size as int) is None,
        },
{
    if size <= bytes.len() - at {
        Some((at + size, None))
    } else {
        None
    }
}

fn end_counted(bytes: &[u8], at: usize, size: u64) -> (r: Option<(usize, Option<Frame>)>)
    requires
        at <= bytes@.len(),
        1 <= size <= 8,
    ensures
        match r {
            Some((next, enter)) => after_counted(bytes@, at as int, size as int) == Some(
                (next as int, enter),
            ) && next <= bytes@.len(),
            None => after_counted(bytes@, at as int, size as int) is None,
        },
{
    let len = bytes.len();
    if len - at < 4 {
        return None;
    }
    let n = read32(bytes, at);
    if n >= 0x8000_0000 {
        return None;
    }
    assert(n * size <= 0x8000_0000 * 8) by (nonlinear_arith)
        requires
            n < 0x8000_0000,
            size <= 8,
    ;
    let room = (len - at - 4) as u64;
    if n * size <= room {
        Some((at + 4 + (n * size) as usize, None))
    } else {
        None
    }
}

/// Where the walk stands after it has come to a value of the kind `kind`
/// at `at`.
fn end_value(bytes: &[u8], kind: u8, at: usize) -> (r: Option<(usize, Option<Frame>)>)
    requires
        at <= bytes@.len(),
    ensures
        match r {
            Some((next, enter)) => after_value(bytes@, kind, at as int) == Some(
                (next as int, enter),
            ) && next <= bytes@.len(),
            None => after_value(bytes@, kind, at as int) is None,
        },
{
    let len = bytes.len();
    if kind == 1 {
        end_fixed(bytes, at, 1)
    } else if kind == 2 {
        end_fixed(bytes, at, 2)
    } else if kind == 3 || kind == 5 {
        end_fixed(bytes, at, 4)
    } else if kind == 4 || kind == 6 {
        end_fixed(bytes, at, 8)
    } else if kind == 7 {
        end_counted(bytes, at, 1)
    } else if kind == 8 {
        if len - at < 2 {
            return None;
        }
        let n = read16(bytes, at);
        if n <= len - at - 2 {
            Some((at + 2 + n, None))
        } else {
            None
        }
    } else if kind == 9 {
        if len - at < 5 {
            return None;
        }
        let element = bytes[at];
        let n = read32(bytes, at + 1);
        if element <= 12 && n < 0x8000_0000 && !(element == 0 && n != 0) {
            Some((at + 5, Some(Frame { list: true, element, left: n as u32 })))
        } else {
            None
        }
    } else if kind == 10 {
        Some((at, Some(Frame { list: false, element: 0, left: 0 })))
    } else if kind == 11 {
        end_counted(bytes, at, 4)
    } else if kind == 12 {
        end_counted(bytes, at, 8)
    } else {
        None
    }
}

/// Whether the bytes can be walked as one compound with a name, in which
/// nothing is nested deeper than 512 levels.
pub fn is_shallow(bytes: &[u8]) -> (b: bool)
    ensures
        b == shallow(bytes@),
{
    let len = bytes.len();
    if len < 3 || bytes[0] != 10 {
        return false;
    }
    let name = read16(bytes, 1);
    if name > len - 3 {
        return false;
    }
    let mut at: usize = 3 + name;
    let mut frames: Vec<Frame> = Vec::new();
    frames.push(Frame { list: false, element: 0, left: 0 });
    let mut fuel: u128 = 3 * (len as u128) + 3;
    proof {
        assert(frames@ =~= seq![Frame { list: false, element: 0, left: 0 }]);
    }
    while fuel > 0
        invariant
            len == bytes@.len(),
            at <= len,
            frames@.len() <= 512,
            shallow(bytes@) == walks(bytes@, at as int, frames@, fuel as nat),
        decreases fuel,
    {
        let depth = frames.len();
        if depth == 0 {
            return true;
        }
        let top = frames[depth - 1];
        let ghost before = frames@;
        let ghost below = frames@.drop_last();
        let ghost here = at as int;
        if top.list {
            frames.pop();
            proof {
                assert(frames@ =~= below);
            }
            if top.left != 0 {
                match end_value(bytes, top.element, at) {
                    None => {
                        return false;
                    },
                    Some((next, enter)) => {
                        frames.push(Frame { list: true, element: top.element, left: top.left - 1 });
                        match enter {
                            None => {},
                            Some(frame) => {
                                if frames.len() >= DEEPEST {
                                    return false;
                                }
                                frames.push(frame);
                            },
                        }
                        at = next;
                    },
                }
            }
        } else if at >= len {
            return false;
        } else if bytes[at] == 0 {
            frames.pop();
            proof {
                assert(frames@ =~= below);
            }
            if frames.len() == 0 {
                return true;
            }
            at = at + 1;
        } else {
            if len - at < 3 {
                return false;
            }
            let name = read16(bytes, at + 1);
            if name > len - at - 3 {
                return false;
            }
            match end_value(bytes, bytes[at], at + 3 + name) {
                None => {
                    return false;
                },
                Some((next, enter)) => {
                    match enter {
                        None => {},
                        Some(frame) => {
                            if frames.len() >= DEEPEST {
                                return false;
                            }
                            frames.push(frame);
                        },
                    }
                    at = next;
                },
            }
        }
        proof {
            assert(step(bytes@, here, before) == Step::On(at as int, frames@));
        }
        fuel = fuel - 1;
    }
    false
}

} // verus!
