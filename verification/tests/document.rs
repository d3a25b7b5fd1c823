use fksjson::number::FloatLiteral;
use fksjson::parser::{float_literals, parse, ParserError};
use fksjson::{JsonContext, JsonError, JsonType};
use std::collections::HashMap;

fn float_value(lit: &FloatLiteral) -> f64 {
    let mut num = 0f64;
    for d in lit.whole.iter() {
        num = num * 10.0 + *d as f64;
    }
    let mut place = 0.1f64;
    for d in lit.fraction.iter() {
        num += *d as f64 * place;
        place *= 0.1;
    }
    let mut exponent: usize = 0;
    for d in lit.exponent.iter() {
        exponent = exponent.saturating_mul(10).saturating_add(*d as usize).min(100_000);
    }
    for _ in 0..exponent {
        if lit.exponent_negative {
            num *= 0.1;
        } else {
            num *= 10.0;
        }
    }
    if lit.negative {
        -num
    } else {
        num
    }
}

fn read(text: &str) -> Result<(JsonContext, u64), ParserError> {
    let text = text.to_string();
    let bits: Vec<u64> = float_literals(&text)
        .iter()
        .map(|lit| float_value(lit).to_bits())
        .collect();
    parse(&text, &bits)
}

fn write(cxt: &JsonContext, beautify: bool) -> String {
    let mut texts: HashMap<u64, String> = HashMap::new();
    for bits in cxt.floats().unwrap() {
        texts.insert(bits, format!("{:?}", f64::from_bits(bits)));
    }
    cxt.to_string(beautify, &texts).unwrap()
}

#[test]
pub fn main() {
    let (mut cxt, root_arr) = JsonContext::new(false);
    let (root, root_obj) = cxt.val_obj();
    cxt.array_push(root_arr, root);

    cxt.set_val(root_obj, "asd".to_string(), cxt.val_int(-56));
    cxt.set_val(root_obj, "try".to_string(), cxt.val_int(560));

    let (obj_val, obj) = cxt.val_obj();
    cxt.array_push(root_arr, obj_val);

    cxt.set_val(
        obj,
        "a float".to_string(),
        cxt.val_float(2340.0000001f64.to_bits()),
    );
    cxt.set_val(
        obj,
        "another float".to_string(),
        cxt.val_float((-1230.1293f64).to_bits()),
    );
    cxt.set_val(root_obj, "life".to_string(), cxt.val_bool(true));
    cxt.set_val(obj, "death".to_string(), cxt.val_bool(false));
    let str = cxt.val_string("Felix".to_string());
    cxt.set_val(obj, "name".to_string(), str);
    cxt.set_val(obj, "null object".to_string(), cxt.val_null());

    let (arr_val, arr_id) = cxt.val_array();
    cxt.set_val(root_obj, "array".to_string(), arr_val);
    let (arr_obj, arr_obj_i) = cxt.val_obj();
    cxt.set_val(arr_obj_i, "try".to_string(), cxt.val_int(56));
    cxt.set_val(arr_obj_i, "what".to_string(), cxt.val_float((-23f64).to_bits()));
    cxt.array_push(arr_id, arr_obj);
    cxt.array_insert(arr_id, 0, cxt.val_bool(false)).unwrap();
    cxt.array_remove(arr_id, 0).unwrap();

    cxt.erase(obj, "another float".to_string()).unwrap();

    for _ in 0..1000 {
        cxt.set_val(obj, "test".to_string(), cxt.val_int(-5));
        let (o, _) = cxt.val_obj();
        cxt.set_val(obj, "test_object_2".to_string(), o);
    }

    let output_json = write(&cxt, true);
    println!(
        "{}\n{}\n{}\n{}",
        output_json,
        cxt.get_int(cxt.get_val(root_obj, &"asd".to_string()).unwrap())
            .unwrap(),
        f64::from_bits(
            cxt.get_float(cxt.get_val(obj, &"a float".to_string()).unwrap())
                .unwrap()
        ),
        cxt.get_bool(cxt.get_val(obj, &"death".to_string()).unwrap())
            .unwrap(),
    );

    assert_eq!(
        cxt.get_int(cxt.get_val(root_obj, &"asd".to_string()).unwrap()),
        Ok(-56)
    );
    assert_eq!(
        cxt.get_float(cxt.get_val(obj, &"a float".to_string()).unwrap()),
        Ok(2340.0000001f64.to_bits())
    );
    assert_eq!(
        cxt.get_bool(cxt.get_val(obj, &"death".to_string()).unwrap()),
        Ok(false)
    );
    assert_eq!(
        write(&cxt, false),
        "[{\"asd\":-56,\"try\":560,\"life\":true,\"array\":[{\"try\":56,\"what\":-23.0}]},\
         {\"a float\":2340.0000001,\"death\":false,\"name\":\"Felix\",\"null object\":null,\
         \"test\":-5,\"test_object_2\":{}}]"
    );
    // Each overwrite released the object that the key held before.
    assert!(cxt.has_object(1002));
    assert!(!cxt.has_object(1001));
    assert!(!cxt.has_object(3));
}

#[test]
fn parsing() {
    let json = "{\n\t// a comment\n\t\"name\": \"fks\", /* another */\n\t\"list\": [1, 2.5, true, null, {\"k\": \"v\"}],\n\t\"hex\": 0x2A\n}";
    let txt = write(&read(json).unwrap().0, false);
    assert_eq!(
        txt,
        "{\"name\":\"fks\",\"list\":[1,2.5,true,null,{\"k\":\"v\"}],\"hex\":42}"
    );
    let pretty = write(&read(&txt).unwrap().0, true);
    println!("\n\n{}\n\n", pretty);
    assert_eq!(
        pretty,
        "{\n\t\"name\": \"fks\",\n\t\"list\": [\n\t\t1,\n\t\t2.5,\n\t\ttrue,\n\t\tnull,\n\t\t{\n\t\t\t\"k\": \"v\"\n\t\t}\n\t],\n\t\"hex\": 42\n}"
    );
}

#[test]
fn serialized_text_is_a_fixed_point() {
    let texts = [
        "{\"a\":[1,2,{\"b\":null,\"c\":[[],{}]}],\"d\":\"x\\ny\\u00e9\",\"e\":-0x10,\"f\":1.5e3}",
        "[ 017 , 0b11, \"\\x41\\t\" , false ]",
        "{}",
        "[]",
        "[\"\u{1F600}\"]",
    ];
    for text in texts.iter() {
        let once = write(&read(text).unwrap().0, false);
        let twice = write(&read(&once).unwrap().0, false);
        assert_eq!(once, twice);
    }
}

#[test]
fn a_character_beyond_the_basic_plane_may_change_on_the_second_pass() {
    // U+10041 is written as the escape of its low 16 bits, which reads back
    // as the letter A.
    let once = write(&read("[\"\u{10041}\"]").unwrap().0, false);
    assert_eq!(once, "[\"\\u0041\"]");
    let twice = write(&read(&once).unwrap().0, false);
    assert_eq!(twice, "[\"A\"]");
}

#[test]
fn empty_containers_have_no_interior_whitespace() {
    let (cxt, _) = JsonContext::new(true);
    assert_eq!(write(&cxt, false), "{}");
    assert_eq!(write(&cxt, true), "{}");
    let (cxt, _) = JsonContext::new(false);
    assert_eq!(write(&cxt, false), "[]");
    assert_eq!(write(&cxt, true), "[]");
    let (cxt, _) = read("{\"a\": {}, \"b\": [ ]}").unwrap();
    assert_eq!(write(&cxt, true), "{\n\t\"a\": {},\n\t\"b\": []\n}");
}

#[test]
fn setting_a_key_twice_keeps_the_last_value_and_moves_the_key_last() {
    let (mut cxt, root) = JsonContext::new(true);
    let k = "k".to_string();
    cxt.set_val(root, "first".to_string(), cxt.val_int(0));
    cxt.set_val(root, k.clone(), cxt.val_int(1));
    cxt.set_val(root, "other".to_string(), cxt.val_null());
    cxt.set_val(root, k.clone(), cxt.val_int(2));
    assert!(cxt.contains(root, &k));
    assert!(cxt.contains_str(root, "k"));
    assert_eq!(cxt.get_int(cxt.get_val(root, &k).unwrap()), Ok(2));
    assert_eq!(write(&cxt, false), "{\"first\":0,\"other\":null,\"k\":2}");
}

#[test]
fn erasing_a_key_releases_what_its_value_owns() {
    let (mut cxt, root) = JsonContext::new(true);
    let (outer, outer_id) = cxt.val_obj();
    cxt.set_val(root, "outer".to_string(), outer);
    let (list, list_id) = cxt.val_array();
    cxt.set_val(outer_id, "list".to_string(), list);
    let (inner, inner_id) = cxt.val_obj();
    cxt.array_push(list_id, inner);
    let text = cxt.val_string("deep".to_string());
    cxt.set_val(inner_id, "text".to_string(), text);
    let kept = cxt.val_string("kept".to_string());
    cxt.set_val(root, "kept".to_string(), kept);
    assert!(cxt.has_object(outer_id) && cxt.has_array(list_id) && cxt.has_object(inner_id));
    assert!(cxt.has_string(0) && cxt.has_string(1));

    assert_eq!(cxt.erase(root, "outer".to_string()), Ok(()));

    assert!(!cxt.has_object(outer_id));
    assert!(!cxt.has_array(list_id));
    assert!(!cxt.has_object(inner_id));
    assert!(!cxt.has_string(0));
    assert!(cxt.has_string(1));
    assert!(cxt.has_object(root));
    assert!(!cxt.contains_str(root, "outer"));
    assert_eq!(write(&cxt, false), "{\"kept\":\"kept\"}");
    assert_eq!(
        cxt.erase(root, "outer".to_string()),
        Err(JsonError::KeyNotFound)
    );
}

#[test]
fn ids_are_never_handed_out_twice() {
    let (mut cxt, root) = JsonContext::new(true);
    let (a, a_id) = cxt.val_obj();
    cxt.set_val(root, "a".to_string(), a);
    cxt.erase(root, "a".to_string()).unwrap();
    let (_b, b_id) = cxt.val_obj();
    assert_eq!(a_id, 1);
    assert_eq!(b_id, 2);
}

#[test]
fn reading_a_missing_key_fails() {
    let (mut cxt, root) = JsonContext::new(true);
    cxt.set_val(root, "n".to_string(), cxt.val_null());
    assert!(matches!(
        cxt.get_val(root, &"x".to_string()),
        Err(JsonError::KeyNotFound)
    ));
    assert_eq!(cxt.is_null(root, "x".to_string()), Err(JsonError::KeyNotFound));
    assert_eq!(cxt.is_null(root, "n".to_string()), Ok(true));
    cxt.set_val(root, "i".to_string(), cxt.val_int(3));
    assert_eq!(cxt.is_null(root, "i".to_string()), Ok(false));
}

#[test]
fn typed_readers_check_the_tag() {
    let (mut cxt, _root) = JsonContext::new(true);
    let i = cxt.val_int(7);
    let f = cxt.val_float(1.5f64.to_bits());
    let b = cxt.val_bool(true);
    let n = cxt.val_null();
    let s = cxt.val_string("text".to_string());
    let (o, _) = cxt.val_obj();
    let (a, _) = cxt.val_array();
    assert_eq!(*i.get_type(), JsonType::Int);
    assert_eq!(*f.get_type(), JsonType::Float);
    assert_eq!(*b.get_type(), JsonType::Boolean);
    assert_eq!(*n.get_type(), JsonType::Null);
    assert_eq!(*s.get_type(), JsonType::String);
    assert_eq!(*o.get_type(), JsonType::Object);
    assert_eq!(*a.get_type(), JsonType::Array);
    assert_eq!(cxt.get_int(&i), Ok(7));
    assert_eq!(cxt.get_int(&f), Err(JsonError::TypeMismatch));
    assert_eq!(cxt.get_float(&f), Ok(1.5f64.to_bits()));
    assert_eq!(cxt.get_float(&i), Err(JsonError::TypeMismatch));
    assert_eq!(cxt.get_bool(&b), Ok(true));
    assert_eq!(cxt.get_bool(&n), Err(JsonError::TypeMismatch));
    assert_eq!(cxt.get_string(&s).unwrap(), "text");
    assert!(matches!(cxt.get_string(&i), Err(JsonError::TypeMismatch)));
    assert!(cxt.get_obj(&o).is_ok());
    assert!(matches!(cxt.get_obj(&a), Err(JsonError::TypeMismatch)));
    assert_eq!(cxt.get_int(&cxt.val_int(i64::MIN)), Ok(i64::MIN));
    assert_eq!(cxt.get_bool(&cxt.val_bool(false)), Ok(false));
}

#[test]
fn array_operations_check_index_and_emptiness() {
    let (mut cxt, arr) = JsonContext::new(false);
    assert!(matches!(cxt.array_top(arr), Err(JsonError::EmptyArray)));
    assert!(matches!(cxt.array_pop(arr), Err(JsonError::EmptyArray)));
    assert!(matches!(cxt.array_at(arr, 0), Err(JsonError::IndexOutOfRange)));
    assert!(matches!(cxt.array_remove(arr, 0), Err(JsonError::IndexOutOfRange)));
    assert_eq!(
        cxt.array_insert(arr, 0, cxt.val_int(9)),
        Err(JsonError::IndexOutOfRange)
    );
    cxt.array_push(arr, cxt.val_int(1));
    cxt.array_push(arr, cxt.val_int(3));
    assert_eq!(cxt.array_insert(arr, 1, cxt.val_int(2)), Ok(()));
    assert_eq!(
        cxt.array_insert(arr, 3, cxt.val_int(4)),
        Err(JsonError::IndexOutOfRange)
    );
    assert_eq!(write(&cxt, false), "[1,2,3]");
    assert_eq!(cxt.get_int(cxt.array_at(arr, 1).unwrap()), Ok(2));
    assert_eq!(cxt.get_int(cxt.array_top(arr).unwrap()), Ok(3));
    assert!(matches!(cxt.array_at(arr, 3), Err(JsonError::IndexOutOfRange)));
    let removed = cxt.array_remove(arr, 0).unwrap();
    assert_eq!(cxt.get_int(&removed), Ok(1));
    let popped = cxt.array_pop(arr).unwrap();
    assert_eq!(cxt.get_int(&popped), Ok(3));
    assert_eq!(write(&cxt, false), "[2]");
}

#[test]
fn a_value_taken_out_of_an_array_keeps_what_it_owns() {
    let (mut cxt, arr) = JsonContext::new(false);
    let (o, o_id) = cxt.val_obj();
    cxt.set_val(o_id, "k".to_string(), cxt.val_int(1));
    cxt.array_push(arr, o);
    let taken = cxt.array_pop(arr).unwrap();
    assert!(cxt.has_object(o_id));
    cxt.array_push(arr, cxt.val_null());
    cxt.array_push(arr, taken);
    assert_eq!(write(&cxt, false), "[null,{\"k\":1}]");
}

#[test]
fn strings_are_escaped_to_ascii() {
    let (mut cxt, arr) = JsonContext::new(false);
    let s = cxt.val_string("\"'\\\n\t\u{0B}\r\0\u{08}\u{0C}a\u{7F}\u{80}\u{E9}\u{20AC}\u{1F600}".to_string());
    cxt.array_push(arr, s);
    assert_eq!(
        write(&cxt, false),
        "[\"\\\"\\'\\\\\\n\\t\\v\\r\\0\\b\\fa\u{7F}\\u0080\\u00E9\\u20AC\\uF600\"]"
    );
}

#[test]
fn integers_are_written_in_decimal() {
    let (mut cxt, arr) = JsonContext::new(false);
    for i in [0i64, 7, -7, 10, 1234567890, i64::MAX, i64::MIN] {
        cxt.array_push(arr, cxt.val_int(i));
    }
    assert_eq!(
        write(&cxt, false),
        "[0,7,-7,10,1234567890,9223372036854775807,-9223372036854775808]"
    );
}

#[test]
fn indented_output_nests_with_tabs() {
    let (cxt, _) = read("[[1,[2]],{\"a\":{\"b\":[true]}}]").unwrap();
    assert_eq!(
        write(&cxt, true),
        "[\n\t[\n\t\t1,\n\t\t[\n\t\t\t2\n\t\t]\n\t],\n\t{\n\t\t\"a\": {\n\t\t\t\"b\": [\n\t\t\t\ttrue\n\t\t\t]\n\t\t}\n\t}\n]"
    );
}

#[test]
fn a_float_without_a_text_cannot_be_written() {
    let (mut cxt, arr) = JsonContext::new(false);
    cxt.array_push(arr, cxt.val_float(0.5f64.to_bits()));
    assert_eq!(cxt.floats(), Some(vec![0.5f64.to_bits()]));
    assert_eq!(cxt.to_string(false, &HashMap::new()), None);
    let mut texts = HashMap::new();
    texts.insert(0.5f64.to_bits(), "0.5".to_string());
    assert_eq!(cxt.to_string(false, &texts), Some("[0.5]".to_string()));
}

#[test]
fn floats_are_listed_in_the_order_they_are_written() {
    let (cxt, _) = read("{\"a\":1.5,\"b\":[2.5,{\"c\":-3.5}],\"d\":4,\"e\":1.5}").unwrap();
    let expected: Vec<u64> = [1.5f64, 2.5, -3.5, 1.5].iter().map(|f| f.to_bits()).collect();
    assert_eq!(cxt.floats(), Some(expected));
}

#[test]
fn a_cycle_made_by_the_caller_cannot_be_written() {
    let (mut cxt, arr) = JsonContext::new(false);
    let (o, o_id) = cxt.val_obj();
    cxt.array_push(arr, o);
    let taken = cxt.array_pop(arr).unwrap();
    cxt.array_push(arr, cxt.val_int(1));
    // The object now holds itself.
    cxt.set_val(o_id, "me".to_string(), taken);
    assert_eq!(write(&cxt, false), "[1]");
    let again = cxt.val_null();
    // Setting the key again releases the object, which is the target itself.
    cxt.set_val(o_id, "me".to_string(), again);
    assert!(!cxt.has_object(o_id));
}

#[test]
fn float_literal_round_trip() {
    let (cxt, root) = read("[2340.0000001]").unwrap();
    let bits = cxt.get_float(cxt.array_at(root, 0).unwrap()).unwrap();
    let text = write(&cxt, false);
    let (again, root) = read(&text).unwrap();
    assert_eq!(
        again.get_float(again.array_at(root, 0).unwrap()).unwrap(),
        bits
    );
    assert_eq!(f64::from_bits(bits), 2340.0000001f64);
    assert_eq!(text, "[2340.0000001]");
}
