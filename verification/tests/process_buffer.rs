use open_task::process_buffer::{
    walk_process_buffer, ENTRY_BYTES, OFF_CREATE_TIME, OFF_HANDLES, OFF_KERNEL_TIME, OFF_NAME_BUFFER,
    OFF_NAME_LENGTH, OFF_NEXT_ENTRY, OFF_PARENT_PID, OFF_PID, OFF_PRIVATE_PAGES, OFF_READ_BYTES,
    OFF_THREADS, OFF_USER_TIME, OFF_WORKING_SET, OFF_WRITE_BYTES,
};

const BASE: u64 = 0x7000_0000;

fn put32(b: &mut [u8], o: usize, v: u32) {
    b[o..o + 4].copy_from_slice(&v.to_le_bytes());
}

fn put64(b: &mut [u8], o: usize, v: u64) {
    b[o..o + 8].copy_from_slice(&v.to_le_bytes());
}

/// A record at `o`, naming itself `name` stored at `name_at` (0 for none).
fn record(b: &mut [u8], o: usize, next: u32, pid: u64, ppid: u64, name: &str, name_at: usize) {
    put32(b, o + OFF_NEXT_ENTRY, next);
    put32(b, o + OFF_THREADS, 3);
    put64(b, o + OFF_CREATE_TIME, 1000 + pid);
    put64(b, o + OFF_USER_TIME, 20);
    put64(b, o + OFF_KERNEL_TIME, 30);
    put64(b, o + OFF_PID, pid);
    put64(b, o + OFF_PARENT_PID, ppid);
    put32(b, o + OFF_HANDLES, 77);
    put64(b, o + OFF_WORKING_SET, 4096);
    put64(b, o + OFF_PRIVATE_PAGES, 8192);
    put64(b, o + OFF_READ_BYTES, 5);
    put64(b, o + OFF_WRITE_BYTES, u64::MAX);
    if name_at != 0 {
        let units: Vec<u16> = name.encode_utf16().collect();
        b[o + OFF_NAME_LENGTH..o + OFF_NAME_LENGTH + 2]
            .copy_from_slice(&((units.len() * 2) as u16).to_le_bytes());
        put64(b, o + OFF_NAME_BUFFER, BASE + name_at as u64);
        for (k, u) in units.iter().enumerate() {
            b[name_at + 2 * k..name_at + 2 * k + 2].copy_from_slice(&u.to_le_bytes());
        }
    }
}

#[test]
fn the_chain_is_followed_to_a_zero_link() {
    let mut b = vec![0u8; 1024];
    // Record, then room for thread records and the name, then the last record.
    record(&mut b, 0, 512, 4, 0, "System", 300);
    record(&mut b, 512, 0, 1234, 4, "tâche.exe", 800);
    let es = walk_process_buffer(&b, BASE);
    assert_eq!(es.len(), 2);
    assert_eq!(es[0].UniqueProcessId, 4);
    assert_eq!(es[0].ImageName, "System");
    assert_eq!(es[0].NextEntryOffset, 512);
    assert_eq!(es[1].UniqueProcessId, 1234);
    assert_eq!(es[1].InheritedFromUniqueProcessId, 4);
    assert_eq!(es[1].ImageName, "tâche.exe");
    assert_eq!(es[1].NumberOfThreads, 3);
    assert_eq!(es[1].CreateTime, 2234);
    assert_eq!(es[1].UserTime, 20);
    assert_eq!(es[1].KernelTime, 30);
    assert_eq!(es[1].HandleCount, 77);
    assert_eq!(es[1].WorkingSetSize, 4096);
    assert_eq!(es[1].PrivatePageCount, 8192);
    assert_eq!(es[1].ReadTransferCount, 5);
    assert_eq!(es[1].WriteTransferCount, -1);
}

#[test]
fn a_record_that_would_not_fit_ends_the_walk() {
    let mut b = vec![0u8; ENTRY_BYTES + 100];
    record(&mut b, 0, 300, 8, 4, "", 0);
    let es = walk_process_buffer(&b, BASE);
    assert_eq!(es.len(), 1);
    assert_eq!(es[0].ImageName, "");
    assert!(walk_process_buffer(&b[..ENTRY_BYTES - 1], BASE).is_empty());
}

#[test]
fn a_name_outside_the_buffer_reads_as_empty() {
    let mut b = vec![0u8; 512];
    record(&mut b, 0, 0, 8, 4, "x.exe", 400);
    // Point the name past the end of what the kernel wrote.
    put64(&mut b, OFF_NAME_BUFFER, BASE + 510);
    let es = walk_process_buffer(&b, BASE);
    assert_eq!(es[0].ImageName, "");
}

#[test]
fn an_unpaired_surrogate_decodes_to_the_replacement_character() {
    let mut b = vec![0u8; 512];
    record(&mut b, 0, 0, 8, 4, "ab", 400);
    b[402..404].copy_from_slice(&0xD800u16.to_le_bytes());
    let es = walk_process_buffer(&b, BASE);
    assert_eq!(es[0].ImageName, "a\u{FFFD}");
}
