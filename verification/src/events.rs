use vstd::prelude::*;

verus! {

/// A mouse button as the engine reports it to game code.
#[derive(Debug, Clone, Copy, PartialEq, Eq, Structural)]
pub enum MouseButton {
    Left,
    Right,
    Middle,
}

/// The answer to a command that produces a value.
#[derive(Debug, Clone, Copy, PartialEq, Eq, Structural)]
pub enum CommandResult {
    /// Id of the mesh under the queried pixel, 0 when there is none.
    ClickQuery(u32),
}

/// What the engine tells game code.
#[derive(Debug, Clone, Copy, PartialEq, Eq, Structural)]
pub enum Event {
    Click { x: u32, y: u32, mouse_button: MouseButton },
    CommandResult(CommandResult),
}

/// What the example game does in answer to an engine event.
#[derive(Debug, Clone, Copy, PartialEq, Eq, Structural)]
pub enum Reaction {
    /// Nothing.
    Ignore,
    /// Ask the engine which mesh is under this pixel.
    QueryClick(u32, u32),
    /// Clear every outline; for a mesh id, also restart the outline colour
    /// animation and outline that mesh.
    Select(Option<u32>),
}

impl Event {
    /// A left click asks which mesh was clicked; the answer selects that
    /// mesh, or nothing when the answer is 0; other clicks are ignored.
    pub fn reaction(&self) -> (r: Reaction)
        ensures
            r == match *self {
                Event::Click { x, y, mouse_button } => if mouse_button == MouseButton::Left {
                    Reaction::QueryClick(x, y)
                } else {
                    Reaction::Ignore
                },
                Event::CommandResult(CommandResult::ClickQuery(id)) => if id == 0 {
                    Reaction::Select(None)
                } else {
                    Reaction::Select(Some(id))
                },
            },
    {
        match self {
            Event::Click { x, y, mouse_button } => match mouse_button {
                MouseButton::Left => Reaction::QueryClick(*x, *y),
                _ => Reaction::Ignore,
            },
            Event::CommandResult(CommandResult::ClickQuery(id)) => {
                if *id == 0 {
                    Reaction::Select(None)
                } else {
                    Reaction::Select(Some(*id))
                }
            },
        }
    }
}

} // verus!
