use atom::boot;
use atom::drivers::plic;
use atom::drivers::plic::RegisterWrite;
use atom::drivers::timer;
use atom::drivers::uart;
use atom::drivers::uart::{SerialDevice, SerialPorts, UartWriter};
use atom::runtime::envcall::FileError;
use atom::user;
use atom::user::TimeVal;

#[test]
fn plic_register_addresses() {
    assert_eq!(plic::priority_addr(10), 0x0C00_0028);
    assert_eq!(plic::threshold_addr(1), 0x0C20_1000);
    assert_eq!(plic::claim_addr(1), 0x0C20_1004);
    assert_eq!(plic::enable_addr(1, 40), 0x0C00_2084);
    assert_eq!(plic::set_priority(3, 7), RegisterWrite { addr: 0x0C00_000C, value: 7 });
    assert_eq!(plic::enable(1, 40, 1), RegisterWrite { addr: 0x0C00_2084, value: 0x101 });
    assert_eq!(plic::claim(), 0x0C20_0004);
    assert_eq!(plic::complete(10), RegisterWrite { addr: 0x0C20_0004, value: 10 });
}

#[test]
fn plic_enable_sets_one_bit() {
    assert_eq!(plic::enable_value(0, 10), 0x400);
    assert_eq!(plic::enable_value(0x8000_0001, 42), 0x8000_0401);
    assert_eq!(plic::enable_value(0x400, 10), 0x400);
}

#[test]
fn plic_init_writes() {
    assert_eq!(
        plic::init(2),
        vec![
            RegisterWrite { addr: 0x0C00_0028, value: 1 },
            RegisterWrite { addr: 0x0C20_0000, value: 0 },
            RegisterWrite { addr: 0x0C00_2000, value: 0x402 },
        ]
    );
}

#[test]
fn timer_interval_and_text() {
    assert_eq!(timer::set_timer(5, timer::TICKS_PER_SEC), 10_000_005);
    assert_eq!(timer::CLINT_BASE + timer::MTIME, 0x0200_BFF8);
    assert_eq!(timer::CLINT_BASE + timer::MTIMECMP, 0x0200_4000);
    assert_eq!(timer::handler(), b"[timer] tick!\n");
}

#[test]
fn uart_line_feeds_get_a_carriage_return() {
    let mut out: Vec<u8> = vec![b'>'];
    uart::write_with_crlf(&mut out, b"a\n\nb");
    assert_eq!(out, b">a\r\n\r\nb");
    assert_eq!(UartWriter { port: 0x1000_0000 }.write_str("ok\n"), b"ok\r\n");
    assert_eq!(UartWriter { port: 0 }.write_str(""), b"");
}

#[test]
fn uart_read_never_waits() {
    assert_eq!(uart::read(0, None), Ok(vec![]));
    assert_eq!(uart::read(0, Some(b'x')), Ok(vec![]));
    assert_eq!(uart::read(8, Some(b'x')), Ok(vec![b'x']));
    assert_eq!(uart::read(8, None), Err(FileError::WouldBlock));
}

#[test]
fn uart_ports_in_order() {
    let mut ports = SerialPorts::new();
    assert!(ports.all().is_empty());
    assert_eq!(ports.register(0x1000_0000), b"uart0");
    assert_eq!(ports.register(0x1000_1000), b"uart1");
    assert_eq!(
        ports.all(),
        vec![SerialDevice { port: 0x1000_0000 }, SerialDevice { port: 0x1000_1000 }]
    );
}

#[test]
fn user_elapsed_time() {
    let t1 = TimeVal { sec: 1, usec: 999_999 };
    let t2 = TimeVal { sec: 2, usec: 1 };
    assert_eq!(user::elapsed(t1, t2), 2);
    assert_eq!(user::elapsed(t2, t1), u64::MAX - 1);
}

#[test]
fn user_program_reports() {
    let t1 = TimeVal { sec: 1, usec: 0 };
    let t2 = TimeVal { sec: 1, usec: 1234 };
    let (out, code) = user::run(0, t1, 0, t2);
    assert_eq!(out, b"hello from elf\n[M2] diff_usec=1234\n");
    assert_eq!(code, 0);
    let (out, code) = user::run(-1, t1, -1, t1);
    assert_eq!(
        out,
        b"hello from elf\n[M2] gettimeofday(t1) failed\n[M2] gettimeofday(t2) failed\n[M2] diff_usec=0 (busy loop too fast?)\n"
            .to_vec()
    );
    assert_eq!(code, 1);
    assert_eq!(user::run_child(), (b"[M5] child program speaking\n".to_vec(), 42));
}

#[test]
fn boot_stack_and_line() {
    assert_eq!(boot::stack_top(0x8000_0000, 0x800_0000), 0x87FF_F000);
    assert_eq!(boot::stack_top(0x8000_0008, 0x800_0000), 0x87FF_F000);
    assert_eq!(
        boot::booted_line(0, 0x8000_0000, 0x800_0000),
        b"hart 0 booted, DRAM: 0x80000000..0x88000000 (128 MiB)".to_vec()
    );
}
