use graff::error::GraffError;
use graff::graph::{DirectionalGraff, Node, Rib};

#[test]
fn it_create_new() {
    let result: DirectionalGraff<u8, u8> = DirectionalGraff::new(2);

    let example_node: Node<u8, u8> = Node { value: 2, ribs: Vec::new() };
    let example: DirectionalGraff<u8, u8> = DirectionalGraff { nodes: vec![(0, example_node)] };

    assert_eq!(result, example);
}

#[test]
fn add_node_test() {
    let mut result: DirectionalGraff<u8, u8> = DirectionalGraff::new(2);
    result.add_node(0, 5, 4).unwrap();

    let example_rib1: Rib<u8> = Rib { target: 1, value: 5 };
    let example_node1: Node<u8, u8> = Node { value: 2, ribs: vec![example_rib1] };
    let example_node2: Node<u8, u8> = Node { value: 4, ribs: Vec::new() };
    let example: DirectionalGraff<u8, u8> =
        DirectionalGraff { nodes: vec![(0, example_node1), (1, example_node2)] };
    assert_eq!(result, example);
}

#[test]
fn add_rib_test() {
    let mut result: DirectionalGraff<&str, &str> = DirectionalGraff::new("mid");
    result.add_node(0, "to_left", "left").unwrap();
    result.add_node(0, "to_right", "right").unwrap();
    result.add_rib(1, 2, "to_right").unwrap();

    let test_rib1 = Rib::new(1, "to_left");
    let test_rib2 = Rib::new(2, "to_right");
    let test_rib3 = Rib::new(2, "to_right");
    let test_node1 = Node { value: "mid", ribs: vec![test_rib1, test_rib2] };
    let test_node2 = Node { value: "left", ribs: vec![test_rib3] };
    let test_node3: Node<_, &str> = Node { value: "right", ribs: vec![] };

    let test = DirectionalGraff { nodes: vec![(0, test_node1), (1, test_node2), (2, test_node3)] };

    assert_eq!(result, test);
}

#[test]
fn bfs_test() {
    let mut result: DirectionalGraff<&str, &str> = DirectionalGraff::new("mid");
    result.add_node(0, "to_left", "left").unwrap();
    result.add_node(0, "to_right", "right").unwrap();
    result.add_node(1, "to_left_level2", "left_level2").unwrap();
    result.add_node(1, "to_mid_level2", "mid_level2").unwrap();
    result.add_rib(2, 4, "to_mid_level2").unwrap();
    result.add_node(2, "to_roght_level2", "right_level2").unwrap();

    let exit_1 = |node: &Node<&str, &str>, _: usize| node.value == "mid_level2";
    let exit_2 = |node: &Node<&str, &str>, _: usize| node.value == "right";
    let res_1 = result.bfs(0, exit_1);
    let res_2 = result.bfs(1, exit_2);

    assert_eq!([res_1, res_2], [Ok(Some(4)), Ok(None)]);
}

#[test]
fn remove_rib_test() {
    let mut result: DirectionalGraff<&str, &str> = DirectionalGraff::new("mid");
    result.add_node(0, "to_left", "left").unwrap();
    result.add_node(0, "to_right", "right").unwrap();
    result.add_rib(1, 2, "to_right").unwrap();
    result.remove_rib(0, 2).unwrap();

    let test_rib1 = Rib::new(1, "to_left");
    let test_rib3 = Rib::new(2, "to_right");
    let test_node1 = Node { value: "mid", ribs: vec![test_rib1] };
    let test_node2 = Node { value: "left", ribs: vec![test_rib3] };
    let test_node3: Node<_, &str> = Node { value: "right", ribs: vec![] };

    let test = DirectionalGraff { nodes: vec![(0, test_node1), (1, test_node2), (2, test_node3)] };

    assert_eq!(result, test);
}

#[test]
fn remove_node_test() {
    let mut result: DirectionalGraff<&str, &str> = DirectionalGraff::new("mid");
    result.add_node(0, "to_left", "left").unwrap();
    result.add_node(0, "to_right", "right").unwrap();
    result.add_rib(1, 2, "to_right").unwrap();
    result.remove_node(2).unwrap();

    let test_rib1 = Rib::new(1, "to_left");
    let test_node1 = Node { value: "mid", ribs: vec![test_rib1] };
    let test_node2 = Node { value: "left", ribs: vec![] };

    let test = DirectionalGraff { nodes: vec![(0, test_node1), (1, test_node2)] };

    assert_eq!(result, test);
}

#[test]
fn dessireolization_test() {
    let mut result: DirectionalGraff<String, String> =
        DirectionalGraff::new(String::from("morning"));
    result
        .add_node(0, String::from("lunch is coming soon"), String::from("Noon"))
        .unwrap();
    result.add_node(1, String::from("go home"), String::from("evnin")).unwrap();
    result.add_node(2, String::from("go to sleep"), String::from("night")).unwrap();
    result.add_node(0, String::from("this day"), String::from("Monday")).unwrap();
    result.add_node(4, String::from("next day"), String::from("Tuesday")).unwrap();
    result.add_rib(3, 5, String::from("next day")).unwrap();

    let mut text = String::new();
    text.push_str("0 morning\n");
    text.push_str("1 Noon\n");
    text.push_str("2 evnin\n");
    text.push_str("3 night\n");
    text.push_str("4 Monday\n");
    text.push_str("5 Tuesday\n");
    text.push_str("#\n");
    text.push_str("0 1 lunch is coming soon\n");
    text.push_str("0 4 this day\n");
    text.push_str("1 2 go home\n");
    text.push_str("2 3 go to sleep\n");
    text.push_str("3 5 next day\n");
    text.push_str("4 5 next day\n");

    let mut test_obj: DirectionalGraff<String, String> = DirectionalGraff::new(String::new());
    test_obj.dessireolization(text).unwrap();

    assert_eq!(result, test_obj);
}

#[test]
fn serialize_test() {
    let mut text = String::new();
    text.push_str("0 morning\n");
    text.push_str("1 Noon\n");
    text.push_str("2 evnin\n");
    text.push_str("3 night\n");
    text.push_str("4 Monday\n");
    text.push_str("5 Tuesday\n");
    text.push_str("#\n");

    let mut text1 = text.clone();

    text1.push_str("0 1 lunch is coming soon\n");
    text1.push_str("0 4 this day\n");
    text1.push_str("1 2 go home\n");
    text1.push_str("2 3 go to sleep\n");
    text1.push_str("3 5 next day\n");
    text1.push_str("4 5 next day\n");

    text.push_str("0 1 lunch is coming soon\n");
    text.push_str("0 4 this day\n");
    text.push_str("1 2 go home\n");
    text.push_str("2 3 go to sleep\n");
    text.push_str("3 5 next day\n");
    text.push_str("4 5 next day\n");

    let mut test_obj: DirectionalGraff<String, String> = DirectionalGraff::new(String::new());
    test_obj.dessireolization(text1.clone()).unwrap();
    let res = test_obj.serialize().unwrap();

    assert_eq!(res, text);
}

#[test]
fn single_node_graph_len() {
    let g: DirectionalGraff<u8, u8> = DirectionalGraff::new(7);
    assert_eq!(g.len(), 1);
}

#[test]
fn add_node_growth() {
    let mut g: DirectionalGraff<u8, u8> = DirectionalGraff::new(1);
    g.add_node(0, 9, 3).unwrap();
    assert_eq!(g.len(), 2);
    assert_eq!(g.nodes[0].1.ribs.len(), 1);
    assert_eq!(g.nodes[0].1.ribs[0].target, 1);
    assert_eq!(g.nodes[0].1.ribs[0].value, 9);
    assert_eq!(g.nodes[1].0, 1);
    assert_eq!(g.nodes[1].1.value, 3);
    assert!(g.nodes[1].1.ribs.is_empty());
}

#[test]
fn add_node_missing_source_fails() {
    let mut g: DirectionalGraff<u8, u8> = DirectionalGraff::new(1);
    assert_eq!(g.add_node(5, 2, 3), Err(GraffError::NoSuchNode));
    assert_eq!(g.len(), 1);
}

#[test]
fn remove_rib_removes_all_matches() {
    let mut g: DirectionalGraff<&str, &str> = DirectionalGraff::new("a");
    g.add_rib(0, 2, "first").unwrap();
    g.add_rib(0, 2, "second").unwrap();
    assert_eq!(g.nodes[0].1.ribs.len(), 2);
    g.remove_rib(0, 2).unwrap();
    assert!(g.nodes[0].1.ribs.is_empty());
}

#[test]
fn remove_node_cascades() {
    let mut g: DirectionalGraff<&str, &str> = DirectionalGraff::new("zero");
    g.add_node(0, "a", "one").unwrap();
    g.add_node(1, "b", "two").unwrap();
    g.remove_node(2).unwrap();
    assert_eq!(g.len(), 2);
    assert_eq!(g.nodes[0].0, 0);
    assert_eq!(g.nodes[1].0, 1);
    assert!(g.nodes[1].1.ribs.is_empty());
}

#[test]
fn bfs_early_exit_skips_later_nodes() {
    let mut g: DirectionalGraff<&str, &str> = DirectionalGraff::new("n0");
    g.add_node(0, "e", "n1").unwrap();
    g.add_node(1, "e", "n2").unwrap();
    g.add_node(2, "e", "n3").unwrap();
    let seen = std::cell::RefCell::new(Vec::new());
    let res = g.bfs(0, |_n: &Node<&str, &str>, i: usize| {
        seen.borrow_mut().push(i);
        i == 2
    });
    assert_eq!(res, Ok(Some(2)));
    assert_eq!(*seen.borrow(), vec![0, 1, 2]);
}

#[test]
fn bfs_no_match_returns_none() {
    let mut g: DirectionalGraff<&str, &str> = DirectionalGraff::new("n0");
    g.add_node(0, "e", "n1").unwrap();
    g.add_node(1, "e", "n2").unwrap();
    let res = g.bfs(0, |_n: &Node<&str, &str>, _i: usize| false);
    assert_eq!(res, Ok(None));
}

#[test]
fn bfs_missing_start_fails() {
    let g: DirectionalGraff<&str, &str> = DirectionalGraff::new("n0");
    let res = g.bfs(9, |_n: &Node<&str, &str>, _i: usize| true);
    assert_eq!(res, Err(GraffError::NoSuchNode));
}

#[test]
fn bfs_dangling_edge_surfaces_no_such_node() {
    let mut g: DirectionalGraff<&str, &str> = DirectionalGraff::new("n0");
    g.add_rib(0, 7, "dangling").unwrap();
    let res = g.bfs(0, |_n: &Node<&str, &str>, _i: usize| false);
    assert_eq!(res, Err(GraffError::NoSuchNode));
}

#[test]
fn empty_graph_error() {
    let mut g: DirectionalGraff<u8, u8> = DirectionalGraff::new(1);
    g.remove_node(0).unwrap();
    assert_eq!(g.len(), 0);
    assert_eq!(g.add_node(0, 1, 1), Err(GraffError::EmptyGraph));
    assert_eq!(g.get_next_key(), Err(GraffError::EmptyGraph));
}

#[test]
fn get_next_key_after_removal_is_not_reused() {
    let mut g: DirectionalGraff<u8, u8> = DirectionalGraff::new(1);
    g.add_node(0, 1, 2).unwrap();
    g.add_node(0, 1, 3).unwrap();
    g.remove_node(1).unwrap();
    assert_eq!(g.get_next_key(), Ok(3));
}

#[test]
fn deserialize_bad_integer() {
    let mut g: DirectionalGraff<String, String> = DirectionalGraff::new(String::from("keep"));
    let res = g.dessireolization(String::from("zero morning\n#\n"));
    assert_eq!(res, Err(GraffError::BadInteger));
    assert_eq!(g.nodes[0].1.value, "keep");
}

#[test]
fn deserialize_later_node_line_wins() {
    let mut g: DirectionalGraff<String, String> = DirectionalGraff::new(String::new());
    g.dessireolization(String::from("0 first\n0 second\n#\n")).unwrap();
    assert_eq!(g.len(), 1);
    assert_eq!(g.nodes[0].1.value, "second");
}

#[test]
fn deserialize_undeclared_source() {
    let mut g: DirectionalGraff<String, String> = DirectionalGraff::new(String::from("keep"));
    let res = g.dessireolization(String::from("0 morning\n#\n5 0 lunch\n"));
    assert_eq!(res, Err(GraffError::UndeclaredSource));
    assert_eq!(g.len(), 1);
    assert_eq!(g.nodes[0].1.value, "keep");
}

#[test]
fn end_to_end_example() {
    let mut g: DirectionalGraff<String, String> = DirectionalGraff::new(String::new());
    g.dessireolization(String::from("0 morning\n1 Noon\n#\n0 1 lunch\n"))
        .unwrap();
    assert_eq!(g.len(), 2);
    assert_eq!(g.nodes[0].1.value, "morning");
    assert_eq!(g.nodes[1].1.value, "Noon");
    assert_eq!(g.nodes[0].1.ribs[0].target, 1);
    assert_eq!(g.nodes[0].1.ribs[0].value, "lunch");
    let res = g.bfs(0, |n: &Node<String, String>, _| n.value == "Noon");
    assert_eq!(res, Ok(Some(1)));
}

#[test]
fn round_trip_single_edges() {
    let mut g: DirectionalGraff<String, String> = DirectionalGraff::new(String::from("zero"));
    g.add_node(0, String::from("edge one"), String::from("first stop")).unwrap();
    g.add_node(1, String::from("edge two"), String::from("second stop")).unwrap();
    let text = g.serialize().unwrap();
    let mut h: DirectionalGraff<String, String> = DirectionalGraff::new(String::new());
    h.dessireolization(text).unwrap();
    assert_eq!(g, h);
}

#[test]
fn round_trip_keeps_each_edge_list_order() {
    let mut g: DirectionalGraff<String, String> = DirectionalGraff::new(String::from("zero"));
    g.add_node(0, String::from("a"), String::from("one")).unwrap();
    g.add_node(0, String::from("b"), String::from("two")).unwrap();
    let text = g.serialize().unwrap();
    let mut h: DirectionalGraff<String, String> = DirectionalGraff::new(String::new());
    h.dessireolization(text).unwrap();
    assert_eq!(h.nodes[0].1.ribs.len(), 2);
    assert_eq!(h.nodes[0].1.ribs[0].target, 1);
    assert_eq!(h.nodes[0].1.ribs[1].target, 2);
    assert_eq!(g, h);
}

#[test]
fn serialize_exact_text() {
    let mut g: DirectionalGraff<String, String> = DirectionalGraff::new(String::from("morning"));
    g.add_node(0, String::from("lunch"), String::from("Noon")).unwrap();
    let text = g.serialize().unwrap();
    assert_eq!(text, "0 morning\n1 Noon\n#\n0 1 lunch\n");
}
