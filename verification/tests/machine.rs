use bad_apple::apic::{divisor_encoding, measured_frequency, ApicTimer};
use bad_apple::memory::{
    MemoryRegion, UefiAllocatorManager, BOOT_SERVICES_CODE, BOOT_SERVICES_DATA, CONVENTIONAL,
    UNUSABLE,
};
use bad_apple::pcs::{PCSpeaker, Reload};
use bad_apple::time::Time;

#[test]
fn divisors_are_encoded_for_the_register() {
    let codes = [(1, 0b1011), (2, 0b0000), (4, 0b0001), (8, 0b0010), (16, 0b0011), (32, 0b1000), (64, 0b1001), (128, 0b1010)];
    for (divisor, code) in codes {
        assert_eq!(divisor_encoding(divisor), Some(code));
    }
    for divisor in [0u32, 3, 5, 6, 7, 12, 100, 129, 256, u32::MAX] {
        assert_eq!(divisor_encoding(divisor), None);
    }
}

#[test]
fn the_frequency_is_a_hundred_times_the_ticks_of_ten_milliseconds() {
    assert_eq!(measured_frequency(0xFFFF_FFFF, 16), 0);
    assert_eq!(measured_frequency(0xFFFF_FFFF - 625_000, 16), 1_000_000_000);
    assert_eq!(measured_frequency(0xFFFF_FFFF - 1_000, 1), 100_000);
    // 2^32 - 1 ticks, times 100, times 128, cut to 32 bits
    assert_eq!(measured_frequency(0, 128), (0xFFFF_FFFFu64 * 100 * 128 % (1 << 32)) as u32);
}

#[test]
fn a_timer_needs_a_divisor_it_can_run_with() {
    assert_eq!(ApicTimer::new(1_000_000, 16), Some(ApicTimer { frequency: 1_000_000, divisor: 16 }));
    assert_eq!(ApicTimer::new(1_000_000, 0), None);
    assert_eq!(ApicTimer::new(1_000_000, 3), None);
}

#[test]
fn a_delay_is_counted_in_whole_ticks_per_millisecond() {
    let timer = ApicTimer::new(1_000_000_000, 16).unwrap();
    assert_eq!(timer.delay_ticks(0), Some(0));
    assert_eq!(timer.delay_ticks(1), Some(62_500));
    assert_eq!(timer.delay_ticks(33), Some(2_062_500));
    let slow = ApicTimer::new(1_999_999, 2).unwrap();
    assert_eq!(slow.delay_ticks(10), Some(9_990));
    let still = ApicTimer::new(999, 1).unwrap();
    assert_eq!(still.delay_ticks(1_000), Some(0));
}

#[test]
fn a_delay_that_does_not_fit_the_counter_is_refused() {
    let timer = ApicTimer::new(4_000_000_000, 1).unwrap();
    assert_eq!(timer.delay_ticks(1_073), Some(4_292_000_000));
    assert_eq!(timer.delay_ticks(1_074), None);
    let broken = ApicTimer { frequency: 1_000, divisor: 0 };
    assert_eq!(broken.delay_ticks(1), None);
}

#[test]
fn the_speaker_is_reloaded_with_the_clock_over_the_frequency() {
    assert_eq!(PCSpeaker::reload_for(0), None);
    // 1193182 / 440 = 2711 = 0x0A97
    assert_eq!(PCSpeaker::reload_for(440), Some(Reload { low: 0x97, high: 0x0A }));
    // 1193182 / 18 = 66287 = 0x102EF, of which sixteen bits are kept
    assert_eq!(PCSpeaker::reload_for(18), Some(Reload { low: 0xEF, high: 0x02 }));
    assert_eq!(PCSpeaker::reload_for(1_193_182), Some(Reload { low: 1, high: 0 }));
    assert_eq!(PCSpeaker::reload_for(2_000_000), Some(Reload { low: 0, high: 0 }));
}

#[test]
fn the_enable_bits_switch_the_speaker() {
    assert_eq!(PCSpeaker::switched_on(0b1010_0000), 0b1010_0011);
    assert_eq!(PCSpeaker::switched_on(0xFF), 0xFF);
    assert_eq!(PCSpeaker::switched_off(0b1010_0011), 0b1010_0000);
    assert_eq!(PCSpeaker::switched_off(0b0000_0001), 0);
}

fn region(start: usize, pages: usize, memory_type: u32) -> MemoryRegion {
    MemoryRegion { start, size: pages * 4096, memory_type }
}

#[test]
fn the_heap_goes_to_the_largest_usable_region() {
    let regions = [
        region(0x1000, 10, CONVENTIONAL),
        region(0x10_0000, 500, UNUSABLE),
        region(0x20_0000, 40, BOOT_SERVICES_DATA),
        region(0x30_0000, 40, CONVENTIONAL),
        region(0x40_0000, 39, BOOT_SERVICES_CODE),
        region(0x50_0000, 1000, 2),
    ];
    assert_eq!(UefiAllocatorManager::find_memory_region(&regions), Some(regions[2]));
}

#[test]
fn no_heap_without_a_usable_page() {
    assert_eq!(UefiAllocatorManager::find_memory_region(&[]), None);
    let regions = [region(0, 100, UNUSABLE), MemoryRegion { start: 0, size: 4095, memory_type: CONVENTIONAL }];
    assert_eq!(UefiAllocatorManager::find_memory_region(&regions), None);
}

#[test]
fn a_region_is_made_from_a_descriptor() {
    let r = MemoryRegion::from_descriptor(0x8000, 3, CONVENTIONAL);
    assert_eq!(r, MemoryRegion { start: 0x8000, size: 3 * 4096, memory_type: CONVENTIONAL });
    assert_eq!(r.end(), Some(0x8000 + 3 * 4096));
    assert_eq!(r.page_count(), 3);
    assert!(r.is_usable());
    assert!(MemoryRegion::from_descriptor(0, 1, BOOT_SERVICES_CODE).is_usable());
    assert!(MemoryRegion::from_descriptor(0, 1, BOOT_SERVICES_DATA).is_usable());
    assert!(!MemoryRegion::from_descriptor(0, 1, 0).is_usable());
    let huge = MemoryRegion::from_descriptor(u64::MAX, u64::MAX, CONVENTIONAL);
    assert_eq!((huge.start, huge.size), (usize::MAX, usize::MAX));
    assert_eq!(huge.end(), None);
}

#[test]
fn the_default_region_is_empty_and_unusable() {
    let r = MemoryRegion::default();
    assert_eq!(r, MemoryRegion { start: 0, size: 0, memory_type: UNUSABLE });
    assert!(!r.is_usable());
    assert_eq!(r.page_count(), 0);
}

#[test]
fn a_reading_of_the_clock_is_a_count_of_milliseconds() {
    let zero = Time { year: 0, month: 0, day: 0, hour: 0, minute: 0, second: 0, nanosecond: 0 };
    assert_eq!(zero.as_timestamp(), 0);
    let t = Time { year: 0, month: 0, day: 1, hour: 2, minute: 3, second: 4, nanosecond: 5_999_999 };
    assert_eq!(t.as_timestamp(), 86_400_000 + 2 * 3_600_000 + 3 * 60_000 + 4_000 + 5);
    let now = Time { year: 2024, month: 6, day: 15, hour: 12, minute: 30, second: 45, nanosecond: 0 };
    let total: u64 = 2024 * 31_536_000_000 + 6 * 2_592_000_000 + 15 * 86_400_000 + 12 * 3_600_000 + 30 * 60_000 + 45_000;
    assert_eq!(now.as_timestamp(), (total % (1 << 32)) as u32);
    let later = Time { second: 46, nanosecond: 500_000_000, ..now };
    assert_eq!(later.as_timestamp().wrapping_sub(now.as_timestamp()), 1_500);
}
