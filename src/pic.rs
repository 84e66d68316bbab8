//! The two chained 8259 interrupt controllers: which vectors each one
//! raises, and how a serviced interrupt is acknowledged.
use vstd::prelude::*;

verus! {

/// Command port of the primary controller.
pub const PRIMARY_COMMAND_PORT: u16 = 0x20;

/// Command port of the secondary controller.
pub const SECONDARY_COMMAND_PORT: u16 = 0xA0;

/// Command byte that ends the interrupt being serviced.
pub const END_OF_INTERRUPT: u8 = 0x20;

/// Number of interrupt lines of one controller.
pub const LINES_PER_CONTROLLER: u8 = 8;

/// One of the two controllers.
#[derive(Debug, Clone, Copy, PartialEq, Eq, Structural)]
pub enum Controller {
    Primary,
    Secondary,
}

/// A byte to write to an I/O port.
#[derive(Debug, Clone, Copy, PartialEq, Eq, Structural)]
pub struct PortWrite {
    pub port: u16,
    pub value: u8,
}

pub open spec fn command_port(c: Controller) -> u16 {
    match c {
        Controller::Primary => PRIMARY_COMMAND_PORT,
        Controller::Secondary => SECONDARY_COMMAND_PORT,
    }
}

/// The primary controller and the secondary one chained behind it, with the
/// first vector that each raises.
#[derive(Debug, Clone, Copy, PartialEq, Eq, Structural)]
pub struct ChainedPics {
    primary_offset: u8,
    secondary_offset: u8,
}

pub open spec fn in_range(offset: u8, vector: u8) -> bool {
    offset <= vector < offset + LINES_PER_CONTROLLER
}

impl ChainedPics {
    pub closed spec fn primary(&self) -> u8 {
        self.primary_offset
    }

    pub closed spec fn secondary(&self) -> u8 {
        self.secondary_offset
    }

    /// Controllers whose lines 0..8 raise vectors from `offset1` and from
    /// `offset2` on.
    pub fn new(offset1: u8, offset2: u8) -> (r: Self)
        requires
            offset1 <= 247,
            offset2 <= 247,
        ensures
            r.primary() == offset1,
            r.secondary() == offset2,
    {
        ChainedPics { primary_offset: offset1, secondary_offset: offset2 }
    }

    /// Controllers that raise the sixteen vectors from `offset` on, the
    /// secondary's right after the primary's.
    pub fn new_contiguous(offset: u8) -> (r: Self)
        requires
            offset <= 239,
        ensures
            r.primary() == offset,
            r.secondary() == offset + LINES_PER_CONTROLLER,
    {
        ChainedPics::new(offset, offset + LINES_PER_CONTROLLER)
    }

    pub open spec fn wf(&self) -> bool {
        self.primary() <= 247 && self.secondary() <= 247
    }

    pub open spec fn secondary_handles(&self, vector: u8) -> bool {
        in_range(self.secondary(), vector)
    }

    pub open spec fn handles(&self, vector: u8) -> bool {
        in_range(self.primary(), vector) || in_range(self.secondary(), vector)
    }

    pub fn primary_offset(&self) -> (r: u8)
        ensures
            r == self.primary(),
    {
        self.primary_offset
    }

    pub fn secondary_offset(&self) -> (r: u8)
        ensures
            r == self.secondary(),
    {
        self.secondary_offset
    }

    /// Whether one of the two controllers raises `vector`.
    pub fn handles_interrupt(&self, vector: u8) -> (r: bool)
        requires
            self.wf(),
        ensures
            r == self.handles(vector),
    {
        (self.primary_offset <= vector && vector < self.primary_offset + LINES_PER_CONTROLLER) || (
        self.secondary_offset <= vector && vector < self.secondary_offset + LINES_PER_CONTROLLER)
    }

    /// The controllers to acknowledge, in order, once `vector` is serviced:
    /// the secondary first where it raised the vector, then the primary,
    /// through which every secondary line is chained.
    pub fn acknowledge(&self, vector: u8) -> (r: Vec<Controller>)
        requires
            self.wf(),
            self.handles(vector),
        ensures
            self.secondary_handles(vector) ==> r@ == seq![Controller::Secondary, Controller::Primary],
            !self.secondary_handles(vector) ==> r@ == seq![Controller::Primary],
    {
        let mut r: Vec<Controller> = Vec::new();
        if self.secondary_offset <= vector && vector < self.secondary_offset + LINES_PER_CONTROLLER {
            r.push(Controller::Secondary);
        }
        r.push(Controller::Primary);
        proof {
            if self.secondary_handles(vector) {
                assert(r@ =~= seq![Controller::Secondary, Controller::Primary]);
            } else {
                assert(r@ =~= seq![Controller::Primary]);
            }
        }
        r
    }

    /// The port writes that acknowledge `vector`: an end-of-interrupt command
    /// to each controller that `acknowledge` names, in the same order. A
    /// vector that neither controller raises needs none.
    pub fn notify_end_of_interrupt(&self, vector: u8) -> (r: Vec<PortWrite>)
        requires
            self.wf(),
        ensures
            !self.handles(vector) ==> r@.len() == 0,
            self.handles(vector) && self.secondary_handles(vector) ==> r@ == seq![
                PortWrite { port: SECONDARY_COMMAND_PORT, value: END_OF_INTERRUPT },
                PortWrite { port: PRIMARY_COMMAND_PORT, value: END_OF_INTERRUPT },
            ],
            self.handles(vector) && !self.secondary_handles(vector) ==> r@ == seq![
                PortWrite { port: PRIMARY_COMMAND_PORT, value: END_OF_INTERRUPT },
            ],
    {
        let mut writes: Vec<PortWrite> = Vec::new();
        if !self.handles_interrupt(vector) {
            return writes;
        }
        let targets = self.acknowledge(vector);
        let mut i: usize = 0;
        while i < targets.len()
            invariant
                i <= targets@.len(),
                writes@.len() == i,
                forall|j: int|
                    0 <= j < i ==> #[trigger] writes@[j] == (PortWrite {
                        port: command_port(targets@[j]),
                        value: END_OF_INTERRUPT,
                    }),
            decreases targets@.len() - i,
        {
            let port = match targets[i] {
                Controller::Primary => PRIMARY_COMMAND_PORT,
                Controller::Secondary => SECONDARY_COMMAND_PORT,
            };
            writes.push(PortWrite { port, value: END_OF_INTERRUPT });
            i += 1;
        }
        proof {
            if self.secondary_handles(vector) {
                assert(writes@ =~= seq![
                    PortWrite { port: SECONDARY_COMMAND_PORT, value: END_OF_INTERRUPT },
                    PortWrite { port: PRIMARY_COMMAND_PORT, value: END_OF_INTERRUPT },
                ]);
            } else {
                assert(writes@ =~= seq![
                    PortWrite { port: PRIMARY_COMMAND_PORT, value: END_OF_INTERRUPT },
                ]);
            }
        }
        writes
    }
}

} // verus!
