use aks_primality_test::input::get_input;

#[test]
fn default_input_without_arguments() {
    assert_eq!(get_input(vec![]), "31");
    assert_eq!(get_input(vec![String::from("aks")]), "31");
}

#[test]
fn first_argument_is_the_input() {
    assert_eq!(get_input(vec![String::from("aks"), String::from("97")]), "97");
    assert_eq!(
        get_input(vec![String::from("aks"), String::from("12"), String::from("13")]),
        "12"
    );
    assert_eq!(get_input(vec![String::from("aks"), String::new()]), "");
}
