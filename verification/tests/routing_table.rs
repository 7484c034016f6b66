use kademlia_routing::bucket::Bucket;
use kademlia_routing::commands::forever;
use kademlia_routing::contact::{Contact, Endpoint, NodeId};
use kademlia_routing::routing_table::{ContactWithDistance, RoutingTable};

fn node_id(low: u64) -> NodeId {
    NodeId { w0: 0, w1: 0, w2: 0, w3: low }
}

fn get_contact(distance_from_zero: u64) -> Contact {
    Contact::from_id(node_id(distance_from_zero))
}

fn get_contact_with_address(distance_from_zero: u64, octets: [u8; 4], port: u16) -> Contact {
    Contact::new(
        node_id(distance_from_zero),
        Endpoint { oct0: octets[0], oct1: octets[1], oct2: octets[2], oct3: octets[3], port },
    )
}

const NUM_IDS: u64 = 16;

fn init_routing_table(bucket_size: u8, localhost_index: u64) -> RoutingTable {
    let localhost = get_contact(localhost_index);
    let mut routing_table = RoutingTable::new(localhost, bucket_size);

    let mut i: u64 = 0;
    while i < NUM_IDS {
        if i != localhost_index {
            routing_table.add_contact(get_contact(i));
        }
        i += 1;
    }
    routing_table
}

#[test]
fn test_size_of_closest_contacts_is_not_larger_than_bucket_size() {
    let bucket_size: u8 = 5;
    let routing_table = init_routing_table(bucket_size, 0);

    let closest_contacts = routing_table.get_closest_contacts(&get_contact(4));
    assert!(closest_contacts.len() <= (bucket_size as usize));
}

#[test]
fn test_closest_contacts_1() {
    let bucket_size: u8 = 5;
    let routing_table = init_routing_table(bucket_size, 0);

    let closest_contacts = routing_table.get_closest_contacts(&get_contact(4));
    assert_eq!(bucket_size as usize, closest_contacts.len());
    assert_eq!(get_contact(5), closest_contacts[0]);
    assert_eq!(get_contact(6), closest_contacts[1]);
    assert_eq!(get_contact(7), closest_contacts[2]);
    assert_eq!(get_contact(1), closest_contacts[3]);
    assert_eq!(get_contact(2), closest_contacts[4]);
}

#[test]
fn test_closest_contacts_2() {
    let bucket_size: u8 = 5;
    let routing_table = init_routing_table(bucket_size, 0);

    let closest_contacts = routing_table.get_closest_contacts(&get_contact(3));
    assert_eq!(bucket_size as usize, closest_contacts.len());
    assert_eq!(get_contact(2), closest_contacts[0]);
    assert_eq!(get_contact(1), closest_contacts[1]);
    assert_eq!(get_contact(4), closest_contacts[2]);
    assert_eq!(get_contact(5), closest_contacts[3]);
    assert_eq!(get_contact(6), closest_contacts[4]);
}

#[test]
fn test_closest_contacts_must_not_contain_target() {
    assert!(NUM_IDS <= (u8::MAX as u64));
    let bucket_size = NUM_IDS as u8;
    let routing_table = init_routing_table(bucket_size, 0);

    let target_index: u64 = 3;
    let closest_contacts = routing_table.get_closest_contacts(&get_contact(target_index));
    assert!(!closest_contacts.contains(&get_contact(target_index)));
    assert!(2 <= NUM_IDS);
    let number_of_contacts_except_localhost = (NUM_IDS as usize) - 1;
    let number_of_contacts_except_localhost_and_target = number_of_contacts_except_localhost - 1;
    assert_eq!(number_of_contacts_except_localhost_and_target, closest_contacts.len());
}

#[test]
fn test_add_contact_fails_when_there_is_duplicated_id_with_diffrent_address() {
    assert!(NUM_IDS <= (u8::MAX as u64));
    let bucket_size = NUM_IDS as u8;
    let mut routing_table = init_routing_table(bucket_size, 0);

    let new_contact = get_contact_with_address(4, [127, 0, 0, 1], 3485);
    routing_table.add_contact(new_contact.clone());
    let closest_contacts = routing_table.get_closest_contacts(&new_contact);
    assert!(!closest_contacts.contains(&new_contact));
}

#[test]
fn duplicate_id_with_new_address_replaces_the_stored_entry() {
    let bucket_size = NUM_IDS as u8;
    let mut routing_table = init_routing_table(bucket_size, 0);

    let old_contact = get_contact(4);
    let new_contact = get_contact_with_address(4, [127, 0, 0, 1], 3485);
    routing_table.add_contact(new_contact.clone());

    let closest_contacts = routing_table.get_closest_contacts(&get_contact(3));
    assert!(closest_contacts.contains(&new_contact));
    assert!(!closest_contacts.contains(&old_contact));
    assert!(routing_table.contains(&new_contact));
    assert!(!routing_table.contains(&old_contact));
}

#[test]
fn refreshing_a_contact_moves_it_behind_its_bucket_mates() {
    // identifiers 8..=11 all fall in distance class 4 of localhost 0
    let mut routing_table = RoutingTable::new(get_contact(0), 2);
    assert_eq!(None, routing_table.add_contact(get_contact(8)));
    assert_eq!(None, routing_table.add_contact(get_contact(9)));
    // a third member overflows the bucket; the oldest is the candidate
    assert_eq!(Some(get_contact(8)), routing_table.add_contact(get_contact(10)));
    // refreshing the oldest moves it to the back: the candidate changes
    assert_eq!(Some(get_contact(9)), routing_table.add_contact(get_contact(8)));
    assert_eq!(Some(get_contact(9)), routing_table.add_contact(get_contact(11)));
}

#[test]
fn removing_an_absent_contact_changes_nothing() {
    let bucket_size = NUM_IDS as u8;
    let mut routing_table = init_routing_table(bucket_size, 0);

    // same identifier, different endpoint: not removed by full value
    let stranger = get_contact_with_address(4, [10, 0, 0, 7], 19);
    routing_table.remove_contact(&stranger);
    assert!(routing_table.contains(&get_contact(4)));

    let before = routing_table.get_closest_contacts(&get_contact(3));
    routing_table.remove_contact(&get_contact_with_address(20, [1, 2, 3, 4], 5));
    let after = routing_table.get_closest_contacts(&get_contact(3));
    assert_eq!(before, after);
}

#[test]
fn removing_a_present_contact_takes_it_out() {
    let bucket_size = NUM_IDS as u8;
    let mut routing_table = init_routing_table(bucket_size, 0);

    assert!(routing_table.contains(&get_contact(5)));
    routing_table.remove_contact(&get_contact(5));
    assert!(!routing_table.contains(&get_contact(5)));
    let closest_contacts = routing_table.get_closest_contacts(&get_contact(4));
    assert!(!closest_contacts.contains(&get_contact(5)));
    assert_eq!((NUM_IDS as usize) - 3, closest_contacts.len());
}

#[test]
fn contact_sharing_the_local_identifier_is_rejected() {
    let mut routing_table = init_routing_table(NUM_IDS as u8, 0);

    // identifier 0 is the local node's; even another endpoint is dropped
    let collider = get_contact_with_address(0, [127, 0, 0, 1], 3485);
    assert_eq!(None, routing_table.add_contact(collider.clone()));
    assert!(!routing_table.contains(&collider));
    let closest_contacts = routing_table.get_closest_contacts(&get_contact(7));
    assert!(!closest_contacts.contains(&collider));
    assert!(!closest_contacts.contains(&get_contact(0)));
}

#[test]
fn query_sees_every_contact_of_an_over_capacity_bucket() {
    // identifiers 8 and 9 share distance class 4; capacity 1 overflows the
    // bucket, and nothing evicts until the caller acts on the candidate
    let mut routing_table = RoutingTable::new(get_contact(0), 1);
    assert_eq!(None, routing_table.add_contact(get_contact(8)));
    assert_eq!(Some(get_contact(8)), routing_table.add_contact(get_contact(9)));

    // the over-capacity member is still stored and still answers queries
    let closest_contacts = routing_table.get_closest_contacts(&get_contact(8));
    assert_eq!(vec![get_contact(9)], closest_contacts);
}

#[test]
fn query_of_an_empty_table_returns_nothing() {
    let routing_table = RoutingTable::new(get_contact(0), 5);
    let closest_contacts = routing_table.get_closest_contacts(&get_contact(3));
    assert!(closest_contacts.is_empty());
}

#[test]
fn removing_an_emptied_bucket_leaves_queries_intact() {
    let mut routing_table = RoutingTable::new(get_contact(0), 5);
    routing_table.add_contact(get_contact(1));
    routing_table.add_contact(get_contact(2));
    routing_table.remove_contact(&get_contact(1));
    // identifier 1 is the only member of distance class 1
    routing_table.remove_bucket(1);
    let closest_contacts = routing_table.get_closest_contacts(&get_contact(3));
    assert_eq!(1, closest_contacts.len());
    assert_eq!(get_contact(2), closest_contacts[0]);
}

#[test]
fn log2_distance_is_the_highest_differing_bit_plus_one() {
    assert_eq!(0, get_contact(4).log2_distance(&get_contact(4)));
    assert_eq!(1, get_contact(4).log2_distance(&get_contact(5)));
    assert_eq!(2, get_contact(4).log2_distance(&get_contact(6)));
    assert_eq!(3, get_contact(4).log2_distance(&get_contact(3)));
    assert_eq!(4, get_contact(0).log2_distance(&get_contact(15)));
    assert_eq!(64, get_contact(0).log2_distance(&get_contact(u64::MAX)));

    // distance looks at the identifier alone, not the endpoint
    let far = get_contact_with_address(4, [127, 0, 0, 1], 3485);
    assert_eq!(0, get_contact(4).log2_distance(&far));

    // higher words weigh 64 bits each
    let high = Contact::from_id(NodeId { w0: 1, w1: 0, w2: 0, w3: 0 });
    assert_eq!(193, get_contact(0).log2_distance(&high));
    let middle = Contact::from_id(NodeId { w0: 0, w1: 0, w2: 3, w3: 0 });
    assert_eq!(66, get_contact(0).log2_distance(&middle));

    // the metric is symmetric
    assert_eq!(
        get_contact(9).log2_distance(&get_contact(2)),
        get_contact(2).log2_distance(&get_contact(9)),
    );
}

#[test]
fn contact_with_distance_carries_the_distance_to_the_target() {
    let entry = ContactWithDistance::new(&get_contact(4), &get_contact(6));
    assert_eq!(2, entry.distance);
    assert_eq!(get_contact(4), entry.contact);
}

#[test]
fn bucket_add_reports_the_oldest_entry_only_when_over_capacity() {
    let mut bucket = Bucket::new(2);
    assert!(bucket.is_empty());
    assert_eq!(None, bucket.add_contact(get_contact(8)));
    assert!(!bucket.is_empty());
    assert_eq!(None, bucket.add_contact(get_contact(9)));
    assert_eq!(Some(get_contact(8)), bucket.add_contact(get_contact(10)));
    assert!(bucket.contains(&get_contact(8)));
    assert!(bucket.contains(&get_contact(9)));
    assert!(bucket.contains(&get_contact(10)));
}

#[test]
fn bucket_remove_matches_by_full_value() {
    let mut bucket = Bucket::new(5);
    bucket.add_contact(get_contact(8));
    assert!(!bucket.remove_contact(&get_contact_with_address(8, [9, 9, 9, 9], 9)));
    assert!(bucket.contains(&get_contact(8)));
    assert!(bucket.remove_contact(&get_contact(8)));
    assert!(!bucket.contains(&get_contact(8)));
    assert!(bucket.is_empty());
    assert!(!bucket.remove_contact(&get_contact(8)));
}

#[test]
fn forever_reports_success() {
    assert_eq!(Ok(()), forever());
}
