use blog_kernel::interrupts::{
    breakpoint_handler, build_idt, key_response, double_fault_handler, init_idt, keyboard_interrupt_handler,
    run_handler, timer_interrupt_handler, DecodedKey, HandlerKind, IdtError,
    InterruptDescriptorTable, InterruptIndex, KeyDecoder, Report, Slot, BREAKPOINT_VECTOR,
    DOUBLE_FAULT_IST_INDEX, DOUBLE_FAULT_VECTOR,
};
use blog_kernel::pic::{
    ChainedPics, Controller, PortWrite, END_OF_INTERRUPT, PRIMARY_COMMAND_PORT,
    SECONDARY_COMMAND_PORT,
};

#[test]
fn interrupt_index_vectors() {
    assert_eq!(InterruptIndex::Timer.as_u8(), 32);
    assert_eq!(InterruptIndex::Keyboard.as_u8(), 33);
    assert_eq!(InterruptIndex::Keyboard.as_usize(), 33usize);
}

#[test]
fn breakpoint_only_table_resumes() {
    let mut idt = InterruptDescriptorTable::new();
    idt.set_handler(BREAKPOINT_VECTOR, HandlerKind::Breakpoint);
    let handler = idt.dispatch(BREAKPOINT_VECTOR).expect("breakpoint handler");
    assert_eq!(handler, HandlerKind::Breakpoint);
    let mut decoder = KeyDecoder::new();
    let response = run_handler(handler, &mut decoder, 0);
    assert!(response.resumes);
    assert_eq!(response.report, Report::Breakpoint);
    assert_eq!(response.end_of_interrupt, None);
    assert_eq!(idt.dispatch(DOUBLE_FAULT_VECTOR), None);
}

#[test]
fn double_fault_without_stack_is_refused() {
    let mut idt = InterruptDescriptorTable::new();
    idt.set_handler(BREAKPOINT_VECTOR, HandlerKind::Breakpoint);
    idt.set_handler(DOUBLE_FAULT_VECTOR, HandlerKind::DoubleFault);
    assert_eq!(idt.load(), Err(IdtError::DoubleFaultWithoutStack));
    assert!(!idt.loaded());
    idt.set_stack_index(DOUBLE_FAULT_VECTOR, DOUBLE_FAULT_IST_INDEX);
    assert_eq!(idt.load(), Ok(()));
    assert!(idt.loaded());
}

#[test]
fn load_requires_breakpoint_and_double_fault() {
    let mut idt = InterruptDescriptorTable::new();
    assert_eq!(idt.load(), Err(IdtError::MissingBreakpoint));
    idt.set_handler(BREAKPOINT_VECTOR, HandlerKind::Breakpoint);
    assert_eq!(idt.load(), Err(IdtError::MissingDoubleFault));
}

#[test]
fn kernel_table_is_loaded_once() {
    let mut idt = init_idt();
    assert!(idt.loaded());
    assert_eq!(idt.load(), Err(IdtError::AlreadyLoaded));
    assert_eq!(
        idt.slot(DOUBLE_FAULT_VECTOR),
        Some(Slot { handler: HandlerKind::DoubleFault, stack_index: Some(DOUBLE_FAULT_IST_INDEX) })
    );
    assert_eq!(idt.dispatch(32), Some(HandlerKind::Timer));
    assert_eq!(idt.dispatch(33), Some(HandlerKind::Keyboard));
    assert_eq!(idt.dispatch(34), None);
    let built = build_idt();
    assert!(!built.loaded());
    assert_eq!(built.dispatch(BREAKPOINT_VECTOR), Some(HandlerKind::Breakpoint));
}

#[test]
fn handlers_acknowledge_their_vectors() {
    assert!(breakpoint_handler().resumes);
    let df = double_fault_handler();
    assert!(!df.resumes);
    assert_eq!(df.report, Report::DoubleFault);
    let t = timer_interrupt_handler();
    assert_eq!(t.end_of_interrupt, Some(32));
    assert_eq!(t.report, Report::Tick);
}

#[test]
fn keyboard_handler_decodes_and_acknowledges() {
    let mut decoder = KeyDecoder::new();
    // Set 1: 0x1e is the A key pressed, 0x9e the same key released.
    let press = keyboard_interrupt_handler(&mut decoder, 0x1e);
    assert_eq!(press.report, Report::Key(DecodedKey::Unicode('a')));
    assert_eq!(press.end_of_interrupt, Some(33));
    assert!(press.resumes);
    let release = keyboard_interrupt_handler(&mut decoder, 0x9e);
    assert_eq!(release.report, Report::Nothing);
    assert_eq!(release.end_of_interrupt, Some(33));
}

#[test]
fn keyboard_handler_shift_and_raw_keys() {
    let mut decoder = KeyDecoder::new();
    // Left shift down, then A: a capital letter.
    assert_eq!(keyboard_interrupt_handler(&mut decoder, 0x2a).end_of_interrupt, Some(33));
    let shifted = keyboard_interrupt_handler(&mut decoder, 0x1e);
    assert_eq!(shifted.report, Report::Key(DecodedKey::Unicode('A')));
    // F1 has no character.
    let f1 = keyboard_interrupt_handler(&mut decoder, 0x3b);
    assert!(matches!(f1.report, Report::Key(DecodedKey::RawKey(_))));
}

#[test]
fn acknowledge_primary_vector() {
    let pics = ChainedPics::new_contiguous(32);
    assert!(pics.handles_interrupt(33));
    assert_eq!(pics.acknowledge(33), vec![Controller::Primary]);
    assert_eq!(
        pics.notify_end_of_interrupt(32),
        vec![PortWrite { port: PRIMARY_COMMAND_PORT, value: END_OF_INTERRUPT }]
    );
}

#[test]
fn acknowledge_secondary_vector() {
    let pics = ChainedPics::new(32, 40);
    assert_eq!(pics.acknowledge(40), vec![Controller::Secondary, Controller::Primary]);
    assert_eq!(pics.acknowledge(47), vec![Controller::Secondary, Controller::Primary]);
    assert_eq!(
        pics.notify_end_of_interrupt(44),
        vec![
            PortWrite { port: SECONDARY_COMMAND_PORT, value: 0x20 },
            PortWrite { port: PRIMARY_COMMAND_PORT, value: 0x20 },
        ]
    );
}

#[test]
fn vectors_outside_both_controllers() {
    let pics = ChainedPics::new(32, 40);
    assert!(!pics.handles_interrupt(31));
    assert!(!pics.handles_interrupt(48));
    assert_eq!(pics.notify_end_of_interrupt(48), Vec::new());
    assert_eq!(pics.primary_offset(), 32);
    assert_eq!(pics.secondary_offset(), 40);
}

#[test]
fn key_response_reports_and_acknowledges() {
    let r = key_response(Some(DecodedKey::Unicode('x')));
    assert_eq!(r.report, Report::Key(DecodedKey::Unicode('x')));
    assert_eq!(r.end_of_interrupt, Some(33));
    assert!(r.resumes);
    let none = key_response(None);
    assert_eq!(none.report, Report::Nothing);
    assert_eq!(none.end_of_interrupt, Some(33));
}
