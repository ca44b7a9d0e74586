use dutree::bytes_display::bytes_display;
use dutree::mounts::mount_is_shown;
use dutree::utils::abbreviate_string;

#[test]
fn bytes_display_exact_values() {
    assert_eq!(bytes_display(0), "0B");
    assert_eq!(bytes_display(512), "512B");
    // thresholds are strict: exactly one unit stays in the smaller one
    assert_eq!(bytes_display(1024), "1024B");
    assert_eq!(bytes_display(1025), "1.00KB");
    assert_eq!(bytes_display(1536), "1.50KB");
    assert_eq!(bytes_display(37432), "36.55KB");
    assert_eq!(bytes_display(1024 * 1024), "1024.00KB");
    assert_eq!(bytes_display(3 * 1024 * 1024 / 2), "1.50MB");
    assert_eq!(bytes_display(2 * 1024 * 1024 * 1024), "2.00GB");
}

#[test]
fn bytes_display_rounds_to_nearest() {
    // 2047/1024 = 1.999..., which rounds up to the next whole unit
    assert_eq!(bytes_display(2047), "2.00KB");
    // 1029/1024 = 1.00488..., which rounds down
    assert_eq!(bytes_display(1029), "1.00KB");
    // 1039/1024 = 1.01464..., which rounds to 1.01
    assert_eq!(bytes_display(1039), "1.01KB");
    // an exact tie (1152/1024 = 1.125) rounds the half digit up
    assert_eq!(bytes_display(1152), "1.13KB");
}

#[test]
fn bytes_display_largest_value() {
    // 0.9999...GB of remainder rounds up into the whole count
    assert_eq!(bytes_display(u64::MAX), "17179869184.00GB");
}

#[test]
fn abbreviate_leaves_short_strings_alone() {
    assert_eq!(abbreviate_string("hello", 10), "hello");
    assert_eq!(abbreviate_string("exactly_10", 10), "exactly_10");
    assert_eq!(abbreviate_string("", 3), "");
}

#[test]
fn abbreviate_truncates_with_ellipsis() {
    assert_eq!(abbreviate_string("hello world!", 8), "hello...");
    assert_eq!(abbreviate_string("abcd", 3), "...");
}

#[test]
fn abbreviate_small_budget_fits_short_strings() {
    // a string already within the budget needs no ellipsis, so budgets
    // below the ellipsis length are fine for it
    assert_eq!(abbreviate_string("", 0), "");
    assert_eq!(abbreviate_string("ab", 2), "ab");
    assert_eq!(abbreviate_string("a", 2), "a");
}

#[test]
fn abbreviate_counts_characters_not_bytes() {
    // nine two-byte characters, abbreviated to five: two survive
    assert_eq!(abbreviate_string("ééééééééé", 5), "éé...");
}

#[test]
fn mount_filter_rules() {
    assert!(mount_is_shown("/dev/sda1", "/home"));
    assert!(mount_is_shown("/dev/nvme0n1p2", "/"));
    assert!(!mount_is_shown("/dev/sda2", "/esp"));
    assert!(!mount_is_shown("/dev/sda2", "/efi"));
    assert!(!mount_is_shown("/dev/sda2", "/boot/efi"));
    assert!(!mount_is_shown("tmpfs", "/tmp"));
    assert!(!mount_is_shown("/de", "/mnt"));
}
