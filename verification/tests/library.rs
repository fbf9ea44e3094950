use tini::{Error, Ini};

#[test]
fn bool() -> Result<(), Error> {
    let ini = Ini::from_string("[string]\nabc = true")?;
    let abc: Option<bool> = ini.get("string", "abc");
    assert_eq!(abc, Some(true));
    Ok(())
}

#[test]
fn float() -> Result<(), Error> {
    let ini = Ini::from_string("[section]\nname=10.5")?;
    let name: Option<f64> = ini.get("section", "name");
    assert_eq!(name, Some(10.5));
    Ok(())
}

#[test]
fn float_vec() -> Result<(), Error> {
    let ini = Ini::from_string("[section]\nname=1.2, 3.4, 5.6")?;
    let name: Option<Vec<f64>> = ini.get_vec("section", "name");
    assert_eq!(name, Some(vec![1.2, 3.4, 5.6]));
    Ok(())
}

#[test]
fn bad_cast() {
    let ini = Ini::new().section("one").item("a", 3.14);
    let a: Option<u32> = ini.get("one", "a");
    assert_eq!(a, None);
}

#[test]
fn string_vec() -> Result<(), Error> {
    let ini = Ini::from_string("[section]\nname=a, b, c")?;
    let name: Vec<String> = ini.get_vec("section", "name").unwrap_or(vec![]);
    assert_eq!(name, ["a", "b", "c"]);
    Ok(())
}

#[test]
fn parse_error() -> Result<(), Error> {
    let ini = Ini::from_string("[section]\nlist = 1, 2, --, 4")?;
    let name: Option<Vec<u8>> = ini.get_vec("section", "list");
    assert_eq!(name, None);
    Ok(())
}

#[test]
fn get_or_macro() -> Result<(), Error> {
    let ini = Ini::from_string("[section]\nlist = 1, 2, --, 4")?;
    let with_value: Vec<u8> = ini.get_vec("section", "list").unwrap_or(vec![1, 2, 3, 4]);
    assert_eq!(with_value, [1, 2, 3, 4]);
    Ok(())
}

#[test]
fn ordering_iter() -> Result<(), Error> {
    let ini = Ini::from_string("[a]\nc = 1\nb = 2\na = 3")?;
    let mut keys: Vec<&String> = Vec::new();
    let mut items = ini.section_iter("a");
    while let Some((k, _)) = items.next() {
        keys.push(k);
    }
    assert_eq!(["c", "b", "a"], keys[..]);
    Ok(())
}
