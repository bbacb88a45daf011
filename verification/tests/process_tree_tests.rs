use minmux::process_tree::{count_process_tree, pid_ppid_pairs, processes_running};

#[test]
fn pairs_from_listing() {
    let out = "  PID  PPID\n  10   1\n  11  10\n bad 3\n 12 10 extra\n";
    assert_eq!(pid_ppid_pairs(out), vec![(10, 1), (11, 10), (12, 10)]);
    assert!(pid_ppid_pairs("").is_empty());
}

#[test]
fn counts_the_tree() {
    let pairs = [(10, 1), (11, 10), (12, 10), (13, 11), (20, 1)];
    assert_eq!(count_process_tree(&pairs, 10), Some(4));
    assert_eq!(count_process_tree(&pairs, 13), Some(1));
    assert_eq!(count_process_tree(&pairs, 99), Some(1));
    assert_eq!(count_process_tree(&pairs, 1), Some(6));
    assert_eq!(count_process_tree(&[], 5), Some(1));
}

#[test]
fn counts_every_chain() {
    // 3 is a child of 2 listed twice: it is counted once per chain.
    let pairs = [(2, 1), (2, 1), (3, 2)];
    assert_eq!(count_process_tree(&pairs, 1), Some(5));
}

#[test]
fn cycle_never_ends() {
    assert_eq!(count_process_tree(&[(1, 1)], 1), None);
    assert_eq!(count_process_tree(&[(2, 1), (1, 2)], 1), None);
    // a cycle that is not below the process does not matter
    assert_eq!(count_process_tree(&[(2, 3), (3, 2), (5, 4)], 4), Some(2));
}

#[test]
fn running_from_listing() {
    let out = "  PID  PPID\n  100  1\n  101  100\n  102  101\n  103  1\n";
    assert_eq!(processes_running(out, 100), Some(3));
    assert_eq!(processes_running(out, 0), Some(1));
    assert_eq!(processes_running("PID PPID\n7 7\n", 7), None);
}
