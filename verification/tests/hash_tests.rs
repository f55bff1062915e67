use ithos::block::Block;
use ithos::canonical::{hash_bytes, hash_list, hash_record, hash_str, hash_uint, hash_unordered};
use ithos::id::Id;
use ithos::witness::{Signature, Witness};

fn hex_bytes(hex: &str) -> Vec<u8> {
    let digits: Vec<u8> = hex
        .bytes()
        .map(|b| match b {
            b'0'..=b'9' => b - b'0',
            b'a'..=b'f' => b - b'a' + 10,
            _ => panic!("not a hex digit"),
        })
        .collect();
    digits.chunks(2).map(|p| p[0] * 16 + p[1]).collect()
}

#[test]
fn test_hash_is_deterministic() {
    assert_eq!(hash_bytes(b"hello"), hash_bytes(b"hello"));
    assert_eq!(hash_str("hello"), hash_str("hello"));
    assert_eq!(hash_uint(1000), hash_uint(1000));
}

#[test]
fn test_uint_hash_vectors() {
    // Canonical content-hash vectors for tagged decimal integers.
    assert_eq!(
        hash_uint(0),
        hex_bytes("a4e167a76a05add8a8654c169b07b0447a916035aef602df103e8ae0fe2ff390")
    );
    assert_eq!(
        hash_uint(10),
        hex_bytes("73f6128db300f3751f2e509545be996d162d20f9e030864632f85e34fd0324ce")
    );
    assert_eq!(
        hash_uint(1000),
        hex_bytes("a3346d18105ef801c3598fec426dcc5d4be9d0374da5343f6c8dcbdf24cb8e0b")
    );
}

#[test]
fn test_string_hash_vector() {
    assert_eq!(
        hash_str("ԱԲաբ"),
        hex_bytes("2a2a4485a4e338d8df683971956b1090d2f5d33955a81ecaad1a75125f7a316c")
    );
}

#[test]
fn test_unordered_hash_ignores_permutation() {
    let d1 = hash_bytes(b"alpha");
    let d2 = hash_bytes(b"beta");
    let d3 = hash_bytes(b"gamma");
    let one = hash_unordered(&vec![d1.clone(), d2.clone(), d3.clone()]);
    let two = hash_unordered(&vec![d3, d1, d2]);
    assert_eq!(one, two);
}

#[test]
fn test_ordered_hash_respects_order() {
    let d1 = hash_bytes(b"alpha");
    let d2 = hash_bytes(b"beta");
    assert_eq!(
        hash_list(&vec![d1.clone(), d2.clone()]),
        hash_list(&vec![d1.clone(), d2.clone()])
    );
    assert_ne!(
        hash_list(&vec![d1.clone(), d2.clone()]),
        hash_list(&vec![d2, d1])
    );
}

#[test]
fn test_record_hash_ignores_field_order() {
    let members_one = vec![
        (hash_str("a"), hash_uint(1)),
        (hash_str("b"), hash_uint(2)),
    ];
    let members_two = vec![
        (hash_str("b"), hash_uint(2)),
        (hash_str("a"), hash_uint(1)),
    ];
    assert_eq!(hash_record(&members_one), hash_record(&members_two));
}

#[test]
fn test_witness_hash_deterministic_and_order_sensitive() {
    let sig_a = || Signature {
        signer: b"signer-a".to_vec(),
        bytes: b"sig-bytes-a".to_vec(),
    };
    let sig_b = || Signature {
        signer: b"signer-b".to_vec(),
        bytes: b"sig-bytes-b".to_vec(),
    };

    let mut w1 = Witness::new();
    w1.push_signature(sig_a());
    w1.push_signature(sig_b());

    let mut w2 = Witness::new();
    w2.push_signature(sig_a());
    w2.push_signature(sig_b());

    assert_eq!(w1.objecthash(), w2.objecthash());

    // The signature list is ordered, so swapping co-signatures changes the
    // witness's canonical hash.
    let mut w3 = Witness::new();
    w3.push_signature(sig_b());
    w3.push_signature(sig_a());
    assert_ne!(w1.objecthash(), w3.objecthash());
}

#[test]
fn test_witness_signature_bundle_operations() {
    let mut w = Witness::new();
    assert!(w.get_signatures().is_empty());

    w.set_signatures(vec![Signature {
        signer: b"k1".to_vec(),
        bytes: b"s1".to_vec(),
    }]);
    assert_eq!(w.get_signatures().len(), 1);
    assert_eq!(w.get_signatures()[0].signer, b"k1".to_vec());

    w.mut_signatures().push(Signature {
        signer: b"k2".to_vec(),
        bytes: b"s2".to_vec(),
    });
    assert_eq!(w.get_signatures().len(), 2);

    let taken = w.take_signatures();
    assert_eq!(taken.len(), 2);
    assert!(w.get_signatures().is_empty());

    w.set_signatures(taken);
    w.clear_signatures();
    assert!(w.get_signatures().is_empty());
}

#[test]
fn test_block_serialization_is_deterministic() {
    let mut block = Block::new(b"payload".to_vec());
    block.id = Some(Id::from_value(9));
    let one = block.to_bytes();

    let mut again = Block::new(b"payload".to_vec());
    again.id = Some(Id::from_value(9));
    assert_eq!(one, again.to_bytes());

    let mut witnessed = Block::new(b"payload".to_vec());
    witnessed.id = Some(Id::from_value(9));
    let mut w = Witness::new();
    w.push_signature(Signature {
        signer: b"k".to_vec(),
        bytes: b"s".to_vec(),
    });
    witnessed.witness = Some(w);
    assert_ne!(one, witnessed.to_bytes());
}
