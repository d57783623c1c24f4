use vstd::prelude::*;

verus! {

/// The state of a sprite animation: which row of the sheet it plays and how
/// many frames it has.
pub trait AnimState {
    /// The row of the sprite sheet.
    fn get_y_pos(&self) -> u32;

    /// The index of the last frame.
    fn get_max_frame(&self) -> usize;
}

/// The animations of a player.
#[derive(Debug, PartialEq, Eq, Structural, Copy, Clone)]
pub enum PlayerAnimState {
    Idle,
    Run,
}

impl Default for PlayerAnimState {
    fn default() -> (r: Self)
        ensures
            r == PlayerAnimState::Idle,
    {
        PlayerAnimState::Idle
    }
}

impl AnimState for PlayerAnimState {
    fn get_y_pos(&self) -> (r: u32)
        ensures
            r == 0,
    {
        match self {
            Self::Idle => 0,
            Self::Run => 0,
        }
    }

    fn get_max_frame(&self) -> (r: usize)
        ensures
            r == (match self {
                Self::Idle => 0usize,
                Self::Run => 3usize,
            }),
    {
        match self {
            Self::Idle => 0,
            Self::Run => 3,
        }
    }
}

/// The animations of a zombie.
#[derive(Debug, PartialEq, Eq, Structural, Copy, Clone)]
pub enum ZombieAnimState {
    Spawn,
    Run,
}

impl Default for ZombieAnimState {
    fn default() -> (r: Self)
        ensures
            r == ZombieAnimState::Spawn,
    {
        ZombieAnimState::Spawn
    }
}

impl AnimState for ZombieAnimState {
    fn get_y_pos(&self) -> (r: u32)
        ensures
            r == (match self {
                Self::Spawn => 8u32,
                Self::Run => 0u32,
            }),
    {
        match self {
            Self::Spawn => 8,
            Self::Run => 0,
        }
    }

    fn get_max_frame(&self) -> (r: usize)
        ensures
            r == 3,
    {
        match self {
            Self::Spawn => 3,
            Self::Run => 3,
        }
    }
}

/// The frame after `frame` in an animation whose last frame is `max_frame`:
/// the next one, or the first once the last has been shown.
pub fn advance_frame(frame: usize, max_frame: usize) -> (r: usize)
    requires
        frame < usize::MAX,
    ensures
        r == (if frame + 1 > max_frame {
            0
        } else {
            frame + 1
        }),
{
    let next = frame + 1;
    if next > max_frame {
        0
    } else {
        next
    }
}

/// Advancing keeps the frame within the animation, and cycles through it.
pub proof fn lemma_advance_frame_in_range(frame: usize, max_frame: usize)
    requires
        frame < usize::MAX,
        frame <= max_frame,
    ensures
        (if frame + 1 > max_frame {
            0
        } else {
            frame + 1
        }) <= max_frame,
        frame == max_frame ==> (if frame + 1 > max_frame {
            0int
        } else {
            frame + 1
        }) == 0,
{
}

} // verus!
