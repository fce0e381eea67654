use vgc_netwatch::process::{find_pids_by_name, has_pid, ProcessEntry};

fn entry(pid: u32, name: &str) -> ProcessEntry {
    let mut exe: Vec<u16> = name.encode_utf16().collect();
    exe.resize(260, 0);
    ProcessEntry { pid, exe }
}

#[test]
fn processes_are_found_by_name() {
    let list = vec![
        entry(4, "System"),
        entry(12480, "vgc.exe"),
        entry(7, "VGC.EXE"),
        entry(8, "vgc.exe.bak"),
        entry(9, "xvgc.exe"),
        entry(10, "Vgc.Exe"),
    ];
    assert_eq!(find_pids_by_name("vgc.exe", &list), vec![12480, 7, 10]);
    assert_eq!(find_pids_by_name("VGC.exe", &list), vec![12480, 7, 10]);
    assert_eq!(find_pids_by_name("nothing", &list), Vec::<u32>::new());
    assert_eq!(find_pids_by_name("vgc.exe", &vec![]), Vec::<u32>::new());
}

#[test]
fn a_process_is_found_once() {
    let list = vec![entry(5, "vgc.exe"), entry(6, "vgc.exe"), entry(5, "vgc.exe")];
    assert_eq!(find_pids_by_name("vgc.exe", &list), vec![5, 6]);
}

#[test]
fn letter_case_beyond_ascii() {
    let list = vec![entry(1, "\u{C4}PFEL.EXE"), entry(2, "\u{391}\u{3A3}")];
    assert_eq!(find_pids_by_name("\u{E4}pfel.exe", &list), vec![1]);
    assert_eq!(find_pids_by_name("\u{3B1}\u{3C2}", &list), vec![2]);
}

#[test]
fn text_behind_the_nul_is_ignored() {
    let mut e = entry(3, "vgc.exe");
    e.exe[8] = 65;
    assert_eq!(find_pids_by_name("vgc.exe", &vec![e]), vec![3]);
    let full = ProcessEntry { pid: 4, exe: "vgc.exe".encode_utf16().collect() };
    assert_eq!(find_pids_by_name("vgc.exe", &vec![full]), vec![4]);
}

#[test]
fn membership() {
    assert!(has_pid(&vec![1, 2, 3], 3));
    assert!(!has_pid(&vec![1, 2, 3], 4));
    assert!(!has_pid(&vec![], 0));
}
