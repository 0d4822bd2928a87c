use todo_api::samples;
use todo_api::samples::Color;
use todo_api::samples::Fruit;
use todo_api::samples::Parents;
use todo_api::samples::Person;

#[test]
fn div_test() {
    assert_eq!(samples::div(10, 3), 3);
}

#[test]
#[should_panic]
fn div_panic_test() {
    samples::div(2, 0);
}

#[test]
fn div_rounds_toward_zero() {
    assert_eq!(samples::div(7, -2), -3);
    assert_eq!(samples::div(-7, 2), -3);
    assert_eq!(samples::div(-7, -2), 3);
    assert_eq!(samples::div(i32::MIN, i32::MIN), 1);
    assert_eq!(samples::div(5, i32::MIN), 0);
    assert_eq!(samples::div(i32::MIN, 2), -1073741824);
}

#[test]
fn div_some_and_result_handle_zero() {
    assert_eq!(samples::func_ex_div_some(10, 5), Some(2));
    assert_eq!(samples::func_ex_div_some(10, 0), None);
    assert_eq!(samples::func_ex_div_result(10, 5), Ok(2));
    assert_eq!(samples::func_ex_div_result(10, 0), Err("div by zero"));
}

#[test]
fn add_sums() {
    assert_eq!(samples::add(1, 2), 3);
}

#[test]
fn double_doubles_in_place() {
    let mut arr = [0, 1, 2, 3, 4, 5, 6, 7, 8, 9];
    samples::double(&mut arr);
    assert_eq!(arr, [0, 2, 4, 6, 8, 10, 12, 14, 16, 18]);
}

#[test]
fn f_returns_first() {
    assert_eq!(samples::f(12i16, 13i16), 12i16);
}

#[test]
fn picks_return_prefixes() {
    let x = [1, 2, 3, 4];
    let y = [5, 6, 7];
    assert_eq!(samples::_pick(&x, 2), &[1, 2]);
    let (a, b) = samples::_pick2(&x, &y, 3);
    assert_eq!(a, &[1, 2, 3]);
    assert_eq!(b, &[5, 6, 7]);
}

#[test]
fn myclear_empties() {
    let mut s = "Hello".to_string();
    samples::myclear(&mut s);
    assert_eq!(s, String::new());
}

#[test]
fn fruit_name_is_borrowed() {
    let banana = Fruit {
        name: String::from("Banana"),
    };
    assert_eq!(banana.get_name(), "Banana");
}

#[test]
fn color_codes() {
    assert_eq!(Color::Red.color_code(), "#ff0000".to_string());
    assert_eq!(Color::Custom(10, 122, 255).color_code(), "#0a7aff".to_string());
    assert_eq!(Color::Custom(0, 0, 0).color_code(), "#000000".to_string());
}

#[test]
fn person_ages() {
    let mut taro = Person::new(String::from("taro"), 10);
    assert_eq!(taro.age_incr(5), 15);
    assert_eq!(taro.age, 10);
    taro._age_incr_replace(5);
    assert_eq!(taro.age, 15);
}

#[test]
fn parents_hold_references() {
    let father = Person::new(String::from("a"), 40);
    let mother = Person::new(String::from("b"), 41);
    let parents = Parents::new(&father, &mother);
    assert_eq!(parents.father.name, "a".to_string());
    assert_eq!(parents.mother.name, "b".to_string());
}
