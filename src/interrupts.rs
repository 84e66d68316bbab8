//! The interrupt vector table and what each handler does: which handler a
//! vector reaches, whether execution resumes, and which interrupt is
//! acknowledged on the way out.
use pc_keyboard::layouts::Us104Key;
use pc_keyboard::{HandleControl, Keyboard, ScancodeSet1};
use vstd::prelude::*;

verus! {

/// First vector raised by the primary interrupt controller.
pub const PIC_1_OFFSET: u8 = 32;

/// First vector raised by the secondary interrupt controller.
pub const PIC_2_OFFSET: u8 = PIC_1_OFFSET + 8;

/// Number of slots in the vector table.
pub const VECTOR_COUNT: usize = 256;

/// Vector of the breakpoint exception.
pub const BREAKPOINT_VECTOR: u8 = 3;

/// Vector of the double fault exception.
pub const DOUBLE_FAULT_VECTOR: u8 = 8;

/// Index of the dedicated stack that the double fault handler runs on.
pub const DOUBLE_FAULT_IST_INDEX: u16 = 0;

/// I/O port from which the keyboard's scancode is read.
pub const KEYBOARD_DATA_PORT: u16 = 0x60;

/// The scancode decoder that the keyboard handler keeps between interrupts:
/// set 1 scancodes, the US 104-key layout, Ctrl read as an ordinary key. It
/// remembers the prefix bytes of a key still arriving and the modifier keys
/// held down.
#[verifier::external_body]
pub struct KeyDecoder {
    keyboard: Keyboard<Us104Key, ScancodeSet1>,
}

/// A key press turned into what it stands for.
#[derive(Debug, Clone, PartialEq, Eq)]
pub enum DecodedKey {
    /// A printable character.
    Unicode(char),
    /// A key without a character, by its name.
    RawKey(String),
}

/// The scancode bytes a decoder has been fed since it was made, in order.
pub uninterp spec fn fed(d: KeyDecoder) -> Seq<u8>;

/// The key that the last of `bytes` completes, for a decoder fed exactly
/// `bytes` from its initial state; `None` where that byte completes no key
/// press with a meaning under the layout.
pub uninterp spec fn key_after(bytes: Seq<u8>) -> Option<DecodedKey>;

impl KeyDecoder {
    /// A decoder that has seen no scancode yet.
    pub fn new() -> (r: Self)
        ensures
            fed(r) == Seq::<u8>::empty(),
    {
        KeyDecoder::create()
    }

    /// Relies on pc_keyboard's `Keyboard::new`: a decoder in its initial
    /// state, fed nothing yet.
    #[verifier::external_body]
    fn create() -> (r: Self)
        ensures
            fed(r) == Seq::<u8>::empty(),
    {
        KeyDecoder { keyboard: Keyboard::new(ScancodeSet1::new(), Us104Key, HandleControl::Ignore) }
    }

    /// Relies on pc_keyboard's `Keyboard::add_byte` and
    /// `Keyboard::process_keyevent`: the byte advances the scancode state
    /// machine; a completed key event is at once processed, which updates
    /// the modifier keys and gives the key it stands for, if any. A byte the
    /// state machine rejects gives no key. Every event is processed right
    /// after it completes, so the decoder's state, and the key returned,
    /// depend on the bytes fed so far alone.
    #[verifier::external_body]
    fn decode_byte(&mut self, byte: u8) -> (r: Option<DecodedKey>)
        ensures
            fed(*final(self)) == fed(*old(self)).push(byte),
            r == key_after(fed(*final(self))),
    {
        match self.keyboard.add_byte(byte) {
            Ok(Some(event)) => match self.keyboard.process_keyevent(event) {
                Some(pc_keyboard::DecodedKey::Unicode(c)) => Some(DecodedKey::Unicode(c)),
                Some(pc_keyboard::DecodedKey::RawKey(k)) => Some(DecodedKey::RawKey(format!("{:?}", k))),
                None => None,
            },
            _ => None,
        }
    }
}

/// Hardware interrupts, by the line they arrive on.
#[derive(Debug, Clone, Copy, PartialEq, Eq, Structural)]
pub enum InterruptIndex {
    Timer,
    Keyboard,
}

impl InterruptIndex {
    pub open spec fn vector(self) -> u8 {
        match self {
            InterruptIndex::Timer => PIC_1_OFFSET,
            InterruptIndex::Keyboard => (PIC_1_OFFSET + 1) as u8,
        }
    }

    /// The vector of this interrupt: the timer is line 0 of the primary
    /// controller, the keyboard line 1.
    pub fn as_u8(self) -> (r: u8)
        ensures
            r == self.vector(),
    {
        match self {
            InterruptIndex::Timer => PIC_1_OFFSET,
            InterruptIndex::Keyboard => PIC_1_OFFSET + 1,
        }
    }

    pub fn as_usize(self) -> (r: usize)
        ensures
            r == self.vector() as usize,
    {
        self.as_u8() as usize
    }
}

/// The handlers a slot of the table can hold.
#[derive(Debug, Clone, Copy, PartialEq, Eq, Structural)]
pub enum HandlerKind {
    Breakpoint,
    DoubleFault,
    Timer,
    Keyboard,
}

/// A populated slot: its handler, and the dedicated stack it switches to.
#[derive(Debug, Clone, Copy, PartialEq, Eq, Structural)]
pub struct Slot {
    pub handler: HandlerKind,
    pub stack_index: Option<u16>,
}

/// Why a table cannot be activated.
#[derive(Debug, Clone, Copy, PartialEq, Eq, Structural)]
pub enum IdtError {
    /// The table was activated before.
    AlreadyLoaded,
    /// The breakpoint slot holds no breakpoint handler.
    MissingBreakpoint,
    /// The double fault slot holds no double fault handler.
    MissingDoubleFault,
    /// The double fault handler has no dedicated stack, so a stack overflow
    /// would fault again inside it and reset the machine.
    DoubleFaultWithoutStack,
}

/// The interrupt descriptor table: one slot per vector, activated once.
pub struct InterruptDescriptorTable {
    slots: Vec<Option<Slot>>,
    loaded: bool,
}

/// What the table needs before it may be activated.
pub open spec fn ready(slots: Seq<Option<Slot>>) -> bool {
    &&& slots[BREAKPOINT_VECTOR as int] matches Some(s) && s.handler == HandlerKind::Breakpoint
    &&& slots[DOUBLE_FAULT_VECTOR as int] matches Some(s) && s.handler == HandlerKind::DoubleFault
        && s.stack_index is Some
}

impl InterruptDescriptorTable {
    pub closed spec fn entries(&self) -> Seq<Option<Slot>> {
        self.slots@
    }

    pub closed spec fn is_loaded(&self) -> bool {
        self.loaded
    }

    pub open spec fn wf(&self) -> bool {
        self.entries().len() == VECTOR_COUNT
    }

    /// A table with every slot empty, not yet active.
    pub fn new() -> (r: Self)
        ensures
            r.wf(),
            !r.is_loaded(),
            forall|v: int| 0 <= v < VECTOR_COUNT ==> #[trigger] r.entries()[v] == None::<Slot>,
    {
        let mut slots: Vec<Option<Slot>> = Vec::new();
        let mut i: usize = 0;
        while i < VECTOR_COUNT
            invariant
                i <= VECTOR_COUNT,
                slots@.len() == i,
                forall|v: int| 0 <= v < i ==> #[trigger] slots@[v] == None::<Slot>,
            decreases VECTOR_COUNT - i,
        {
            slots.push(None);
            i += 1;
        }
        InterruptDescriptorTable { slots, loaded: false }
    }

    /// Puts `handler` in the slot of `vector`, with no dedicated stack.
    pub fn set_handler(&mut self, vector: u8, handler: HandlerKind)
        requires
            old(self).wf(),
            !old(self).is_loaded(),
        ensures
            final(self).wf(),
            !final(self).is_loaded(),
            final(self).entries() == old(self).entries().update(
                vector as int,
                Some(Slot { handler, stack_index: None }),
            ),
    {
        self.slots.set(vector as usize, Some(Slot { handler, stack_index: None }));
    }

    /// Makes the handler in the slot of `vector` switch to the dedicated
    /// stack `index`.
    pub fn set_stack_index(&mut self, vector: u8, index: u16)
        requires
            old(self).wf(),
            !old(self).is_loaded(),
            old(self).entries()[vector as int] is Some,
        ensures
            final(self).wf(),
            !final(self).is_loaded(),
            final(self).entries() == old(self).entries().update(
                vector as int,
                Some(Slot { handler: old(self).entries()[vector as int]->Some_0.handler, stack_index: Some(index) }),
            ),
    {
        let handler = self.slots[vector as usize].unwrap().handler;
        self.slots.set(vector as usize, Some(Slot { handler, stack_index: Some(index) }));
    }

    /// The slot of `vector`.
    pub fn slot(&self, vector: u8) -> (r: Option<Slot>)
        requires
            self.wf(),
        ensures
            r == self.entries()[vector as int],
    {
        self.slots[vector as usize]
    }

    /// The handler that `vector` reaches, if its slot holds one.
    pub fn dispatch(&self, vector: u8) -> (r: Option<HandlerKind>)
        requires
            self.wf(),
        ensures
            r == (match self.entries()[vector as int] {
                Some(s) => Some(s.handler),
                None => None::<HandlerKind>,
            }),
    {
        match self.slots[vector as usize] {
            Some(s) => Some(s.handler),
            None => None,
        }
    }

    pub fn loaded(&self) -> (r: bool)
        ensures
            r == self.is_loaded(),
    {
        self.loaded
    }

    /// Activates the table. It must hold the breakpoint handler, and the
    /// double fault handler on a dedicated stack; once active it is never
    /// activated again.
    pub fn load(&mut self) -> (r: Result<(), IdtError>)
        requires
            old(self).wf(),
        ensures
            final(self).wf(),
            final(self).entries() == old(self).entries(),
            old(self).is_loaded() ==> r == Err::<(), IdtError>(IdtError::AlreadyLoaded),
            !old(self).is_loaded() && !(old(self).entries()[BREAKPOINT_VECTOR as int] matches Some(s)
                && s.handler == HandlerKind::Breakpoint) ==> r == Err::<(), IdtError>(
                IdtError::MissingBreakpoint,
            ),
            !old(self).is_loaded() && (old(self).entries()[BREAKPOINT_VECTOR as int] matches Some(s)
                && s.handler == HandlerKind::Breakpoint) && !(old(
                self,
            ).entries()[DOUBLE_FAULT_VECTOR as int] matches Some(s) && s.handler
                == HandlerKind::DoubleFault) ==> r == Err::<(), IdtError>(IdtError::MissingDoubleFault),
            !old(self).is_loaded() && (old(self).entries()[BREAKPOINT_VECTOR as int] matches Some(s)
                && s.handler == HandlerKind::Breakpoint) && (old(
                self,
            ).entries()[DOUBLE_FAULT_VECTOR as int] matches Some(s) && s.handler
                == HandlerKind::DoubleFault && s.stack_index is None) ==> r == Err::<(), IdtError>(
                IdtError::DoubleFaultWithoutStack,
            ),
            r is Ok <==> !old(self).is_loaded() && ready(old(self).entries()),
            final(self).is_loaded() == (old(self).is_loaded() || r is Ok),
    {
        if self.loaded {
            return Err(IdtError::AlreadyLoaded);
        }
        match self.slots[BREAKPOINT_VECTOR as usize] {
            Some(s) => {
                if s.handler != HandlerKind::Breakpoint {
                    return Err(IdtError::MissingBreakpoint);
                }
            },
            None => {
                return Err(IdtError::MissingBreakpoint);
            },
        }
        match self.slots[DOUBLE_FAULT_VECTOR as usize] {
            Some(s) => {
                if s.handler != HandlerKind::DoubleFault {
                    return Err(IdtError::MissingDoubleFault);
                }
                if s.stack_index.is_none() {
                    return Err(IdtError::DoubleFaultWithoutStack);
                }
            },
            None => {
                return Err(IdtError::MissingDoubleFault);
            },
        }
        self.loaded = true;
        Ok(())
    }
}

/// The table with the breakpoint handler, the double fault handler on its
/// dedicated stack, and the timer and keyboard handlers on their vectors.
pub open spec fn kernel_slots(slots: Seq<Option<Slot>>) -> bool {
    &&& slots.len() == VECTOR_COUNT
    &&& slots[BREAKPOINT_VECTOR as int] == Some(Slot { handler: HandlerKind::Breakpoint, stack_index: None })
    &&& slots[DOUBLE_FAULT_VECTOR as int] == Some(
        Slot { handler: HandlerKind::DoubleFault, stack_index: Some(DOUBLE_FAULT_IST_INDEX) },
    )
    &&& slots[InterruptIndex::Timer.vector() as int] == Some(Slot { handler: HandlerKind::Timer, stack_index: None })
    &&& slots[InterruptIndex::Keyboard.vector() as int] == Some(
        Slot { handler: HandlerKind::Keyboard, stack_index: None },
    )
    &&& forall|v: int|
        0 <= v < VECTOR_COUNT && v != BREAKPOINT_VECTOR && v != DOUBLE_FAULT_VECTOR && v
            != InterruptIndex::Timer.vector() && v != InterruptIndex::Keyboard.vector() ==> #[trigger] slots[v]
            == None::<Slot>
}

/// Builds the kernel's table, not yet active.
pub fn build_idt() -> (r: InterruptDescriptorTable)
    ensures
        r.wf(),
        !r.is_loaded(),
        kernel_slots(r.entries()),
{
    let mut idt = InterruptDescriptorTable::new();
    idt.set_handler(BREAKPOINT_VECTOR, HandlerKind::Breakpoint);
    idt.set_handler(DOUBLE_FAULT_VECTOR, HandlerKind::DoubleFault);
    idt.set_stack_index(DOUBLE_FAULT_VECTOR, DOUBLE_FAULT_IST_INDEX);
    idt.set_handler(InterruptIndex::Timer.as_u8(), HandlerKind::Timer);
    idt.set_handler(InterruptIndex::Keyboard.as_u8(), HandlerKind::Keyboard);
    idt
}

/// Builds the kernel's table and activates it.
pub fn init_idt() -> (r: InterruptDescriptorTable)
    ensures
        r.wf(),
        r.is_loaded(),
        kernel_slots(r.entries()),
{
    let mut idt = build_idt();
    let loaded = idt.load();
    idt
}

/// What a handler reports about the interrupt it served.
#[derive(Debug, Clone, PartialEq, Eq)]
pub enum Report {
    /// Nothing to show.
    Nothing,
    /// A breakpoint was hit; the interrupted state is to be shown.
    Breakpoint,
    /// A double fault occurred; the interrupted state is to be shown.
    DoubleFault,
    /// One timer tick.
    Tick,
    /// A key was pressed.
    Key(DecodedKey),
}

/// What a handler asks of the code that runs it.
#[derive(Debug, Clone, PartialEq, Eq)]
pub struct Response {
    pub report: Report,
    /// The vector to acknowledge at the interrupt controllers before
    /// returning.
    pub end_of_interrupt: Option<u8>,
    /// Whether execution continues where it was interrupted; otherwise the
    /// kernel halts.
    pub resumes: bool,
}

/// A breakpoint is reported and execution goes on with the next instruction.
pub fn breakpoint_handler() -> (r: Response)
    ensures
        r == (Response { report: Report::Breakpoint, end_of_interrupt: None, resumes: true }),
{
    Response { report: Report::Breakpoint, end_of_interrupt: None, resumes: true }
}

/// A double fault is reported and the kernel halts.
pub fn double_fault_handler() -> (r: Response)
    ensures
        r == (Response { report: Report::DoubleFault, end_of_interrupt: None, resumes: false }),
{
    Response { report: Report::DoubleFault, end_of_interrupt: None, resumes: false }
}

/// A timer tick is reported and acknowledged.
pub fn timer_interrupt_handler() -> (r: Response)
    ensures
        r == (Response {
            report: Report::Tick,
            end_of_interrupt: Some(InterruptIndex::Timer.vector()),
            resumes: true,
        }),
{
    Response { report: Report::Tick, end_of_interrupt: Some(InterruptIndex::Timer.as_u8()), resumes: true }
}

/// The keyboard handler's response once the decoder has made `key` of the
/// scancode: the key, if any, is reported and the keyboard interrupt is
/// acknowledged in either case.
pub fn key_response(key: Option<DecodedKey>) -> (r: Response)
    ensures
        r == (Response {
            report: match key {
                Some(k) => Report::Key(k),
                None => Report::Nothing,
            },
            end_of_interrupt: Some(InterruptIndex::Keyboard.vector()),
            resumes: true,
        }),
{
    let report = match key {
        Some(k) => Report::Key(k),
        None => Report::Nothing,
    };
    Response { report, end_of_interrupt: Some(InterruptIndex::Keyboard.as_u8()), resumes: true }
}

/// Feeds the one scancode read for this interrupt to the decoder, reports the
/// key it completes, if any, and acknowledges the keyboard interrupt whatever
/// the decoder made of the byte.
pub fn keyboard_interrupt_handler(decoder: &mut KeyDecoder, scancode: u8) -> (r: Response)
    ensures
        fed(*final(decoder)) == fed(*old(decoder)).push(scancode),
        r == (Response {
            report: match key_after(fed(*final(decoder))) {
                Some(k) => Report::Key(k),
                None => Report::Nothing,
            },
            end_of_interrupt: Some(InterruptIndex::Keyboard.vector()),
            resumes: true,
        }),
{
    let key = decoder.decode_byte(scancode);
    key_response(key)
}

/// What `handler` does; the keyboard handler takes the scancode
/// read for this interrupt.
pub fn run_handler(handler: HandlerKind, decoder: &mut KeyDecoder, scancode: u8) -> (r: Response)
    ensures
        handler == HandlerKind::Breakpoint ==> r == (Response {
            report: Report::Breakpoint,
            end_of_interrupt: None,
            resumes: true,
        }),
        handler == HandlerKind::DoubleFault ==> r == (Response {
            report: Report::DoubleFault,
            end_of_interrupt: None,
            resumes: false,
        }),
        handler == HandlerKind::Timer ==> r == (Response {
            report: Report::Tick,
            end_of_interrupt: Some(InterruptIndex::Timer.vector()),
            resumes: true,
        }),
        handler == HandlerKind::Keyboard ==> fed(*final(decoder)) == fed(*old(decoder)).push(scancode) && r
            == (Response {
            report: match key_after(fed(*final(decoder))) {
                Some(k) => Report::Key(k),
                None => Report::Nothing,
            },
            end_of_interrupt: Some(InterruptIndex::Keyboard.vector()),
            resumes: true,
        }),
        handler != HandlerKind::Keyboard ==> *final(decoder) == *old(decoder),
{
    match handler {
        HandlerKind::Breakpoint => breakpoint_handler(),
        HandlerKind::DoubleFault => double_fault_handler(),
        HandlerKind::Timer => timer_interrupt_handler(),
        HandlerKind::Keyboard => keyboard_interrupt_handler(decoder, scancode),
    }
}

} // verus!
