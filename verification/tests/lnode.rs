use hash_trie::node::{LNode, LNodeNext, SNode};

#[test]
fn lnode_insert_3() {
    let node = LNode::new(
        SNode::new(3, ()),
        LNodeNext::L(LNode::new(SNode::new(2, ()), LNodeNext::S(SNode::new(1, ())))),
    );
    assert_eq!(node.size(), 3);
    assert_eq!(node.find(&1), Some((&1, &())));
    assert_eq!(node.find(&2), Some((&2, &())));
    assert_eq!(node.find(&3), Some((&3, &())));
    assert_eq!(node.find(&4), None);
}
