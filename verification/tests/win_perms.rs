use libkrebs::mem::region::{MemType, Perms, State};
use libkrebs::mem::AddressRange;
use libkrebs::win::region::{MEM_COMMIT, MEM_FREE, MEM_IMAGE, MEM_PRIVATE, MEM_RESERVE};
use libkrebs::win::{convert_perms, MemBlock, PagePerms, WinMemState, WinMemType};

#[test]
fn win_to_standard_perms() {
    assert_eq!(convert_perms(PagePerms::page_noaccess()), Perms::nope());
    assert_eq!(
        convert_perms(PagePerms::page_execute_readwrite().union(PagePerms::page_guard())),
        Perms::guard() | Perms::nope()
    );
    assert_eq!(
        convert_perms(PagePerms::page_execute_readwrite()),
        Perms::read() | Perms::write() | Perms::execute()
    );
    assert_eq!(
        convert_perms(PagePerms::page_execute_writecopy().union(PagePerms::page_writecombine())),
        Perms::read() | Perms::execute() | Perms::cow()
    );
    assert_eq!(
        convert_perms(
            PagePerms::page_execute()
                .union(PagePerms::page_nocache())
                .union(PagePerms::page_nocache())
                .union(PagePerms::page_writecombine())
        ),
        Perms::execute()
    );
}

#[test]
fn other_protections_convert() {
    assert_eq!(convert_perms(PagePerms::page_readonly()), Perms::read());
    assert_eq!(convert_perms(PagePerms::page_readwrite()), Perms::read() | Perms::write());
    assert_eq!(convert_perms(PagePerms::page_writecopy()), Perms::read() | Perms::cow());
    assert_eq!(convert_perms(PagePerms::page_execute_read()), Perms::read() | Perms::execute());
    assert_eq!(
        convert_perms(PagePerms::page_readonly().union(PagePerms::page_readwrite())),
        Perms::none()
    );
    assert_eq!(convert_perms(PagePerms::from_bits_retain(0)), Perms::none());
}

#[test]
fn memory_blocks_become_regions() {
    let b = MemBlock::from_info(0x1000, 0x2000, 0x800, 0x04, 0x20, MEM_IMAGE, MEM_COMMIT);
    assert_eq!(b.range, AddressRange::new(0x1000, 0x3000));
    assert_eq!(b.mem_type, WinMemType::Image);
    assert_eq!(b.mem_state, WinMemState::Commit);
    let r = b.into_region();
    assert_eq!(r.base, 0x800);
    assert_eq!(r.mem_type, MemType::image());
    assert_eq!(r.state, State::COMMITTED);
    assert_eq!(r.perms, Perms::read() | Perms::execute());

    let top = MemBlock::from_info(usize::MAX - 4, 0x100, 0, 0x01, 0x01, 0, MEM_FREE);
    assert_eq!(top.range.end_addr, usize::MAX);
    assert_eq!(top.mem_type, WinMemType::Unused);
    assert_eq!(top.into_region().state, State::FREE);

    let reserved = MemBlock::from_info(0, 0x10, 0, 0, 0, MEM_PRIVATE, MEM_RESERVE);
    assert_eq!(reserved.into_region().mem_type, MemType::private());
    assert_eq!(reserved.into_region().state, State::RESERVED);
}
