#[test]
fn default_random_generation() {}

#[test]
fn map_check_output() {
    let i: i32 = -2;
    let u: usize = i as usize;
    println!("{}", u)
}
