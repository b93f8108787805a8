use kernel_mm::prime::is_prime;
use kernel_mm::syscall::{exit, sys_exit, SyscallRequest};
use kernel_mm::timer::{get_time_ms, set_next_trigger};

#[test]
fn primes_below_one_hundred() {
    let primes: Vec<u64> = (2..=100u64).filter(|&i| is_prime(i)).collect();
    assert_eq!(
        primes,
        vec![2, 3, 5, 7, 11, 13, 17, 19, 23, 29, 31, 37, 41, 43, 47, 53, 59, 61, 67, 71, 73, 79, 83, 89, 97]
    );
    assert!(!is_prime(0));
    assert!(!is_prime(1));
}

#[test]
fn next_trigger_is_one_tick_later() {
    assert_eq!(set_next_trigger(1000), 1125);
    assert_eq!(get_time_ms(12_500_000), 1000);
    assert_eq!(get_time_ms(12_499), 0);
}

#[test]
fn exit_requests() {
    assert_eq!(sys_exit(9), SyscallRequest { id: 93, arg0: 9, arg1: 0, arg2: 0 });
    assert_eq!(exit(-1), SyscallRequest { id: 93, arg0: u64::MAX, arg1: 0, arg2: 0 });
    assert_eq!(exit(i32::MIN).arg0, (i32::MIN as i64) as u64);
}

#[test]
fn write_request() {
    let buf = b"hello";
    assert_eq!(kernel_mm::syscall::write(1, buf, 0x1000), SyscallRequest { id: 64, arg0: 1, arg1: 0x1000, arg2: 5 });
}
