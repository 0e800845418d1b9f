use specimen::focustree::{extract_focused_leaf_values, Flag, FlagStat, Shaped, Tree};
use specimen::Writable;

// This struct is used to represent the tree.
#[derive(Debug, PartialEq)]
struct Node {
    value: i32,
    flag: Flag,
    children: Vec<Node>,
}

impl Shaped for Node {}

// The implementation of the trait is as follows:
impl Tree<i32> for Node {
    fn is_leaf(&self) -> bool {
        self.children.is_empty()
    }
    fn get_flag(&self) -> Flag {
        self.flag
    }
    fn get_children(&self) -> Vec<&Node> {
        self.children.iter().collect()
    }
    fn get_value(&self) -> i32 {
        self.value
    }
    fn warning(&self, _message: &str, _stdout: &mut Writable) -> Result<(), std::io::Error> {
        Ok(())
    }
}

#[test]
fn it_supports_trees_with_focused_relatives() {
    // This tree is used to test the library.
    // The tree is as follows:
    //      1
    //     / \
    //    2   3
    //   / \   \
    //  4   5   6
    //     / \
    //    7   8
    //   / \
    //  9   10
    // The leaves are 4, 9, 10, 8 and 6.
    // The focused nodes are 2, 7 and 6.
    // The selected leaves should thus be in order: 9, 10, 6.

    let tree = Node {
        value: 1,
        flag: Flag::Unset,
        children: vec![
            Node {
                value: 2,
                flag: Flag::Focus,
                children: vec![
                    Node {
                        value: 4,
                        flag: Flag::Unset,
                        children: vec![],
                    },
                    Node {
                        value: 5,
                        flag: Flag::Unset,
                        children: vec![
                            Node {
                                value: 7,
                                flag: Flag::Focus,
                                children: vec![
                                    Node {
                                        value: 9,
                                        flag: Flag::Unset,
                                        children: vec![],
                                    },
                                    Node {
                                        value: 10,
                                        flag: Flag::Unset,
                                        children: vec![],
                                    },
                                ],
                            },
                            Node {
                                value: 8,
                                flag: Flag::Unset,
                                children: vec![],
                            },
                        ],
                    },
                ],
            },
            Node {
                value: 3,
                flag: Flag::Unset,
                children: vec![Node {
                    value: 6,
                    flag: Flag::Focus,
                    children: vec![],
                }],
            },
        ],
    };

    let mut actual_result = Vec::new();
    let mut flag_stat = FlagStat::default();
    let mut sink = Writable::Vec(Vec::new());
    extract_focused_leaf_values(&tree, &mut actual_result, &mut flag_stat, &mut sink).unwrap();

    assert_eq!(actual_result, vec![9, 10, 6]);
    assert_eq!(flag_stat.focus_count, 3);
    assert_eq!(flag_stat.skip_count, 0);
}
