use ithos::adapter::LmdbAdapter;
use ithos::block::Block;
use ithos::error::Error;
use ithos::id::Id;
use ithos::node::Node;
use ithos::objectclass::ObjectClass;
use ithos::path::Path;
use ithos::store::Table;

fn create_database() -> LmdbAdapter {
    LmdbAdapter::create_database().unwrap()
}

fn example_block() -> Block {
    let mut block = Block::new(b"example block payload".to_vec());
    block.id = Some(Id::from_value(1));
    block
}

#[test]
fn test_duplicate_block() {
    let mut adapter = create_database();
    let block = example_block();

    let mut txn = adapter.rw_transaction().unwrap();
    adapter.add_block(&mut txn, &block).unwrap();
    txn.commit(&mut adapter).unwrap();

    let mut txn = adapter.rw_transaction().unwrap();
    let result = adapter.add_block(&mut txn, &block);
    assert_eq!(result.err(), Some(Error::EntryAlreadyExists));
}

#[test]
fn test_entry_lookup() {
    let mut adapter = create_database();

    {
        let mut txn = adapter.rw_transaction().unwrap();

        let domain_id = adapter.next_available_id(&txn).unwrap();
        adapter
            .add_entry(
                &mut txn,
                domain_id,
                Id::root(),
                "example.com",
                ObjectClass::Domain,
            )
            .unwrap();

        let hosts_id = domain_id.next();
        adapter
            .add_entry(&mut txn, hosts_id, domain_id, "hosts", ObjectClass::Ou)
            .unwrap();

        let host_id = hosts_id.next();
        adapter
            .add_entry(
                &mut txn,
                host_id,
                hosts_id,
                "master.example.com",
                ObjectClass::Host,
            )
            .unwrap();

        txn.commit(&mut adapter).unwrap();
    }

    {
        let txn = adapter.ro_transaction().unwrap();

        {
            let path = Path::new("/example.com/hosts/master.example.com").unwrap();
            let entry = adapter.find_entry(&txn, &path).unwrap();

            assert_eq!(entry.node.name, "master.example.com");
            assert_eq!(entry.objectclass, ObjectClass::Host);
        }

        txn.commit().unwrap();
    }
}

#[test]
fn test_duplicate_entry_id() {
    let mut adapter = create_database();

    let mut txn = adapter.rw_transaction().unwrap();

    let domain_id = adapter.next_available_id(&txn).unwrap();
    adapter
        .add_entry(
            &mut txn,
            domain_id,
            Id::root(),
            "example.com",
            ObjectClass::Domain,
        )
        .unwrap();

    let result = adapter.add_entry(
        &mut txn,
        domain_id,
        Id::root(),
        "another.com",
        ObjectClass::Domain,
    );
    assert_eq!(result.err(), Some(Error::EntryAlreadyExists));
}

#[test]
fn test_duplicate_entry_name() {
    let mut adapter = create_database();

    let mut txn = adapter.rw_transaction().unwrap();

    let domain_id = adapter.next_available_id(&txn).unwrap();
    adapter
        .add_entry(
            &mut txn,
            domain_id,
            Id::root(),
            "example.com",
            ObjectClass::Domain,
        )
        .unwrap();

    let result = adapter.add_entry(
        &mut txn,
        domain_id.next(),
        Id::root(),
        "example.com",
        ObjectClass::Domain,
    );

    assert_eq!(result.err(), Some(Error::EntryAlreadyExists));
}

#[test]
fn test_find_entry_not_found() {
    let adapter = create_database();
    let txn = adapter.ro_transaction().unwrap();
    let path = Path::new("/missing").unwrap();
    assert_eq!(adapter.find_entry(&txn, &path).err(), Some(Error::NotFound));
}

#[test]
fn test_uncommitted_writes_are_discarded() {
    let adapter = create_database();

    {
        let mut txn = adapter.rw_transaction().unwrap();
        let id = adapter.next_available_id(&txn).unwrap();
        adapter
            .add_entry(&mut txn, id, Id::root(), "ghost.example", ObjectClass::Domain)
            .unwrap();
        // txn dropped without commit: all staged writes vanish
    }

    let txn = adapter.ro_transaction().unwrap();
    let path = Path::new("/ghost.example").unwrap();
    assert_eq!(adapter.find_entry(&txn, &path).err(), Some(Error::NotFound));
}

#[test]
fn test_diverged_tables_surface_as_corrupt() {
    let mut adapter = create_database();

    let mut txn = adapter.rw_transaction().unwrap();
    // A node row with no matching entry row: written through the raw store
    // interface, bypassing add_entry.
    let node = Node {
        id: Id::from_value(1),
        parent_id: Id::root(),
        name: String::from("orphan"),
    };
    let key = Id::root().as_bytes();
    let value = node.to_bytes();
    txn.put(Table::Nodes, &key, &value).unwrap();
    txn.commit(&mut adapter).unwrap();

    let txn = adapter.ro_transaction().unwrap();
    let path = Path::new("/orphan").unwrap();
    assert_eq!(
        adapter.find_entry(&txn, &path).err(),
        Some(Error::DbCorrupt)
    );
}

#[test]
fn test_integer_table_rejects_bad_key() {
    let adapter = create_database();
    let mut txn = adapter.rw_transaction().unwrap();
    let result = txn.put(Table::Entries, b"abc", b"value");
    assert_eq!(result.err(), Some(Error::DbWrite));
}

#[test]
fn test_next_available_id_starts_after_root() {
    let adapter = create_database();
    let txn = adapter.rw_transaction().unwrap();
    let id = adapter.next_available_id(&txn).unwrap();
    assert_eq!(id, Id::root().next());
}

#[test]
fn test_failed_duplicate_block_leaves_log_unchanged() {
    let mut adapter = create_database();
    let block = example_block();

    let mut txn = adapter.rw_transaction().unwrap();
    adapter.add_block(&mut txn, &block).unwrap();
    txn.commit(&mut adapter).unwrap();

    let mut other = Block::new(b"different payload".to_vec());
    other.id = Some(Id::from_value(1));

    let mut txn = adapter.rw_transaction().unwrap();
    assert_eq!(
        adapter.add_block(&mut txn, &other).err(),
        Some(Error::EntryAlreadyExists)
    );
    txn.commit(&mut adapter).unwrap();

    // The block table still holds the original bytes: re-adding the very
    // same original block still collides, and nothing else was written.
    let mut txn = adapter.rw_transaction().unwrap();
    assert_eq!(
        adapter.add_block(&mut txn, &block).err(),
        Some(Error::EntryAlreadyExists)
    );
}

#[test]
fn test_path_parsing() {
    let path = Path::new("/example.com/hosts").unwrap();
    assert_eq!(path.components, vec!["example.com", "hosts"]);

    let root = Path::new("").unwrap();
    assert!(root.components.is_empty());

    let slash = Path::new("/").unwrap();
    assert!(slash.components.is_empty());

    let doubled = Path::new("//a//b/").unwrap();
    assert_eq!(doubled.components, vec!["a", "b"]);
}

#[test]
fn test_empty_path_resolves_to_root() {
    let adapter = create_database();
    let txn = adapter.ro_transaction().unwrap();
    let path = Path::new("").unwrap();
    let node = adapter.find_node(&txn, &path).unwrap();
    assert_eq!(node.id, Id::root());
    assert_eq!(node.name, "");
}

#[test]
fn test_allocation_is_monotonic_and_fresh() {
    let mut adapter = create_database();

    {
        let mut txn = adapter.rw_transaction().unwrap();
        let first = adapter.next_available_id(&txn).unwrap();
        assert_eq!(first, Id::from_value(1));
        adapter
            .add_entry(&mut txn, first, Id::root(), "example.com", ObjectClass::Domain)
            .unwrap();

        // The allocator advances past every assigned id, including leaf ids
        // that never became parents.
        let second = adapter.next_available_id(&txn).unwrap();
        assert_eq!(second, Id::from_value(2));
        adapter
            .add_entry(&mut txn, second, first, "hosts", ObjectClass::Ou)
            .unwrap();

        let third = adapter.next_available_id(&txn).unwrap();
        assert_eq!(third, Id::from_value(3));
        adapter
            .add_entry(&mut txn, third, second, "master.example.com", ObjectClass::Host)
            .unwrap();

        txn.commit(&mut adapter).unwrap();
    }

    // After commit the namespace can keep growing through the documented
    // allocate-then-add flow: the next id is fresh, never one already bound.
    let mut txn = adapter.rw_transaction().unwrap();
    let fourth = adapter.next_available_id(&txn).unwrap();
    assert_eq!(fourth, Id::from_value(4));
    adapter
        .add_entry(&mut txn, fourth, Id::root(), "another.org", ObjectClass::Domain)
        .unwrap();
    txn.commit(&mut adapter).unwrap();

    let txn = adapter.ro_transaction().unwrap();
    let path = Path::new("/another.org").unwrap();
    let entry = adapter.find_entry(&txn, &path).unwrap();
    assert_eq!(entry.node.id, Id::from_value(4));
}

#[test]
fn test_id_byte_encoding() {
    let id = Id::from_value(0x0102030405060708);
    let bytes = id.as_bytes();
    assert_eq!(bytes, vec![1u8, 2, 3, 4, 5, 6, 7, 8]);
    assert_eq!(Id::from_bytes(&bytes), Some(id));
    assert_eq!(Id::from_bytes(b"short"), None);
}

#[test]
fn test_objectclass_roundtrip() {
    for oc in [
        ObjectClass::Root,
        ObjectClass::Domain,
        ObjectClass::Ou,
        ObjectClass::Person,
        ObjectClass::Host,
        ObjectClass::Credential,
    ] {
        assert_eq!(ObjectClass::from_bytes(&oc.as_bytes()), Ok(oc));
    }
    assert_eq!(ObjectClass::from_bytes(b"junk"), Err(Error::Serialize));
}

#[test]
fn test_node_roundtrip() {
    let node = Node {
        id: Id::from_value(42),
        parent_id: Id::from_value(7),
        name: String::from("host.example.com"),
    };
    let bytes = node.to_bytes();
    let parsed = Node::from_parent_id_and_bytes(Id::from_value(7), &bytes).unwrap();
    assert_eq!(parsed.id, node.id);
    assert_eq!(parsed.parent_id, node.parent_id);
    assert_eq!(parsed.name, node.name);

    assert_eq!(
        Node::from_parent_id_and_bytes(Id::root(), b"abc").err(),
        Some(Error::Serialize)
    );
}
