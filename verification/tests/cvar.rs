use cvar_patch::cvar::{CCVar, Cmd, List, LocalList, Node, Var, NULL_NODE};
use cvar_patch::plain::Plain;

fn list_bytes(count: u16, flags: u16, nodes_ptr: u64, head: u16) -> Vec<u8> {
    let mut bytes = vec![0xEE; 24];
    bytes[0..2].copy_from_slice(&count.to_le_bytes());
    bytes[2..4].copy_from_slice(&flags.to_le_bytes());
    bytes[8..16].copy_from_slice(&nodes_ptr.to_le_bytes());
    bytes[16..18].copy_from_slice(&head.to_le_bytes());
    bytes
}

fn node_bytes(data: u64, prev: u16, next: u16) -> Vec<u8> {
    let mut bytes = vec![0xEE; 16];
    bytes[0..8].copy_from_slice(&data.to_le_bytes());
    bytes[8..10].copy_from_slice(&prev.to_le_bytes());
    bytes[10..12].copy_from_slice(&next.to_le_bytes());
    bytes
}

fn sample() -> LocalList<u64> {
    let list = List::<u64>::from_bytes(&list_bytes(3, 1, 0x5000, 2));
    let mut bytes = node_bytes(100, 2, 1);
    bytes.extend(node_bytes(101, 0, NULL_NODE));
    bytes.extend(node_bytes(102, NULL_NODE, 0));
    list.read(&bytes)
}

#[test]
fn layouts_have_their_sizes() {
    assert_eq!((CCVar::size_of(), CCVar::align_of()), (0x110, 8));
    assert_eq!((Var::size_of(), Var::align_of()), (0x38, 8));
    assert_eq!((Cmd::size_of(), Cmd::align_of()), (0x30, 8));
    assert_eq!((List::<u64>::size_of(), List::<u64>::align_of()), (24, 8));
    assert_eq!((Node::<u64>::size_of(), Node::<u64>::align_of()), (16, 8));
    assert_eq!((Node::<Cmd>::size_of(), Node::<Cmd>::align_of()), (0x38, 8));
}

#[test]
fn fields_lie_at_their_offsets() {
    let mut bytes = vec![0u8; 0x110];
    bytes[0x40..0x58].copy_from_slice(&list_bytes(1, 2, 3, 4));
    bytes[0xF8..0x110].copy_from_slice(&list_bytes(5, 6, 7, 8));
    let cvars = CCVar::from_bytes(&bytes);
    assert_eq!(
        (cvars.vars.count, cvars.vars.flags, cvars.vars.nodes_ptr, cvars.vars.head),
        (1, 2, 3, 4)
    );
    assert_eq!(
        (cvars.cmds.count, cvars.cmds.flags, cvars.cmds.nodes_ptr, cvars.cmds.head),
        (5, 6, 7, 8)
    );

    let mut bytes = vec![0u8; 0x38];
    bytes[0] = 9;
    bytes[0x30] = 7;
    let var = Var::from_bytes(&bytes);
    assert_eq!((var.name, var.flags), (9, 7));

    let mut bytes = vec![0u8; 0x30];
    bytes[0] = 9;
    bytes[0x10] = 7;
    let cmd = Cmd::from_bytes(&bytes);
    assert_eq!((cmd.name, cmd.flags), (9, 7));

    let node = Node::<u64>::from_bytes(&node_bytes(0x1234, 5, 6));
    assert_eq!((node.data, node.prev, node.next), (0x1234, 5, 6));
}

#[test]
fn list_read_asks_for_the_node_array() {
    let list = List::<u64>::from_bytes(&list_bytes(3, 1, 0x5000, 2));
    let request = list.read_request();
    assert_eq!((request.addr, request.size), (0x5000, 48));
    let list = List::<Cmd>::from_bytes(&list_bytes(2, 0x7FFF, 0x6000, 0));
    let request = list.read_request();
    assert_eq!((request.addr, request.size), (0x6000, 0x70));
}

#[test]
fn list_read_without_flag_bits_starts_at_zero() {
    for flags in [0, 0x8000] {
        let list = List::<u64>::from_bytes(&list_bytes(3, flags, 0x5000, 2));
        assert_eq!(list.read_request().addr, 0);
        assert_eq!(list.read_request().size, 48);
    }
    let list = List::<u64>::from_bytes(&list_bytes(1, 0x8000, 0x5000, 0));
    let local = list.read(&node_bytes(1, NULL_NODE, NULL_NODE));
    assert_eq!(local.to_remote(0), 0);
}

#[test]
fn to_remote_counts_from_where_the_nodes_were_read() {
    let mut bytes = node_bytes(1, NULL_NODE, 1);
    bytes.extend(node_bytes(2, 0, NULL_NODE));
    let list = List::<u64>::from_bytes(&list_bytes(2, 0, 0x20000, 0));
    assert_eq!(list.read_request().addr, 0);
    assert_eq!(list.read(&bytes).to_remote(1), 0x10);
    let list = List::<u64>::from_bytes(&list_bytes(2, 1, 0x20000, 0));
    assert_eq!(list.read_request().addr, 0x20000);
    assert_eq!(list.read(&bytes).to_remote(1), 0x20010);
}

#[test]
fn iteration_follows_links() {
    let list = sample();
    let mut iter = list.into_iter();
    assert_eq!(iter.next_index(), 2);
    assert_eq!(iter.next(), Some(&102));
    assert_eq!(iter.next_index(), 0);
    assert_eq!(iter.next(), Some(&100));
    assert_eq!(iter.next(), Some(&101));
    assert!(iter.link_in_range());
    assert_eq!(iter.next(), None);
    assert_eq!(iter.next(), None);
}

#[test]
fn empty_list_yields_nothing() {
    let list = List::<u64>::from_bytes(&list_bytes(0, 1, 0x5000, NULL_NODE));
    let local = list.read(&[]);
    assert!(local.into_iter().link_in_range());
    assert_eq!(local.into_iter().next(), None);
}

#[test]
fn broken_links_are_noticed() {
    let list = List::<u64>::from_bytes(&list_bytes(1, 1, 0x5000, 0));
    let local = list.read(&node_bytes(1, NULL_NODE, 1));
    let mut iter = local.into_iter();
    assert!(iter.link_in_range());
    assert_eq!(iter.next(), Some(&1));
    assert!(!iter.link_in_range());
}

#[test]
fn to_remote_counts_from_the_node_array() {
    let list = sample();
    assert_eq!(list.to_remote(0), 0x5000);
    assert_eq!(list.to_remote(2), 0x5020);
    assert!(list.reaches(2, 0x10));
    let far = List::<u64>::from_bytes(&list_bytes(2, 1, u64::MAX - 20, 0));
    let mut bytes = node_bytes(1, NULL_NODE, 1);
    bytes.extend(node_bytes(2, 0, NULL_NODE));
    let far = far.read(&bytes);
    assert!(far.reaches(1, 4));
    assert!(!far.reaches(1, 5));
}
