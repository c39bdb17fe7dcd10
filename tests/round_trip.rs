use std::collections::HashMap;
use std::fmt;

use serde::de::{self, DeserializeOwned};
use serde::ser::{self, Serialize};
use serde_json::Value;
use serde_transcode::{Call, Event, Session, Shape};

/// The signals with which a JSON document, already read, gives its value.
fn events_of(v: &Value, out: &mut Vec<Event>) {
    match v {
        Value::Null => out.push(Event::Value(Shape::Unit)),
        Value::Bool(b) => out.push(Event::Value(Shape::Bool(*b))),
        Value::Number(n) => {
            if let Some(i) = n.as_i64() {
                out.push(Event::Value(Shape::I64(i)));
            } else if let Some(u) = n.as_u64() {
                out.push(Event::Value(Shape::U64(u)));
            } else {
                out.push(Event::Value(Shape::F64(n.as_f64().unwrap().to_bits())));
            }
        }
        Value::String(s) => out.push(Event::Value(Shape::Str(s.clone()))),
        Value::Array(items) => {
            out.push(Event::Value(Shape::Sequence(Some(items.len()))));
            for item in items {
                out.push(Event::Next);
                events_of(item, out);
            }
            out.push(Event::End);
        }
        Value::Object(entries) => {
            out.push(Event::Value(Shape::Mapping(Some(entries.len()))));
            for (k, item) in entries {
                out.push(Event::Next);
                out.push(Event::Value(Shape::Str(k.clone())));
                out.push(Event::Next);
                events_of(item, out);
            }
            out.push(Event::End);
        }
    }
}

enum Open {
    Array(Vec<Value>),
    Object(serde_json::Map<String, Value>, Option<String>),
}

fn attach(stack: &mut Vec<Open>, done: &mut Option<Value>, v: Value) {
    match stack.last_mut() {
        None => *done = Some(v),
        Some(Open::Array(items)) => items.push(v),
        Some(Open::Object(entries, key)) => match key.take() {
            None => *key = Some(v.as_str().unwrap().to_string()),
            Some(k) => {
                entries.insert(k, v);
            }
        },
    }
}

/// A JSON value built by a sink from the calls that it receives.
fn value_of(calls: &[Call]) -> Value {
    let mut stack: Vec<Open> = Vec::new();
    let mut done: Option<Value> = None;
    for call in calls {
        match call {
            Call::Encode(Shape::Sequence(_)) => stack.push(Open::Array(Vec::new())),
            Call::Encode(Shape::Mapping(_)) => {
                stack.push(Open::Object(serde_json::Map::new(), None))
            }
            Call::Encode(Shape::Present) | Call::Encode(Shape::Wrapped) => {}
            Call::Encode(shape) => {
                let v = match shape {
                    Shape::Unit | Shape::Absent => Value::Null,
                    Shape::Bool(b) => Value::Bool(*b),
                    Shape::I64(i) => Value::from(*i),
                    Shape::U64(u) => Value::from(*u),
                    Shape::F64(bits) => Value::from(f64::from_bits(*bits)),
                    Shape::Str(s) => Value::String(s.clone()),
                    other => panic!("not produced from JSON: {:?}", other),
                };
                attach(&mut stack, &mut done, v);
            }
            Call::AppendElement | Call::AppendKey | Call::AppendValue => {}
            Call::EndSequence | Call::EndMap => {
                let v = match stack.pop().unwrap() {
                    Open::Array(items) => Value::Array(items),
                    Open::Object(entries, _) => Value::Object(entries),
                };
                attach(&mut stack, &mut done, v);
            }
        }
    }
    done.unwrap()
}

/// Writes the input as JSON, forwards the document through a session,
/// rebuilds it from the sink's calls, pretty-prints it, and reads it back.
fn test<T>(input: T)
where
    T: fmt::Debug + PartialEq + Serialize + DeserializeOwned,
{
    let json = serde_json::to_string(&input).unwrap();
    println!("json: {}", json);
    let read: Value = serde_json::from_str(&json).unwrap();
    let mut events = Vec::new();
    events_of(&read, &mut events);
    let mut session = Session::new();
    let (calls, fault) = session.forward_all(events);
    assert_eq!(fault, None);
    assert!(session.is_finished());
    let pretty = serde_json::to_string_pretty(&value_of(&calls)).unwrap();
    println!("pretty: {}", pretty);
    let output: T = serde_json::from_str(&pretty).unwrap();
    println!("output: {:?}", output);
    assert_eq!(input, output);
}

#[test]
fn bool() {
    test(true);
    test(false);
}

#[test]
fn isize() {
    test(isize::MIN);
    test(0isize);
    test(isize::MAX);
}

#[test]
fn i8() {
    test(i8::MIN);
    test(0i8);
    test(i8::MAX);
}

#[test]
fn i16() {
    test(i16::MIN);
    test(0i16);
    test(i16::MAX);
}

#[test]
fn i32() {
    test(i32::MIN);
    test(0i32);
    test(i32::MAX);
}

#[test]
fn i64() {
    test(i64::MIN);
    test(0i64);
    test(i64::MAX);
}

#[test]
fn usize() {
    test(0usize);
    test(u32::MAX as usize + 1);
}

#[test]
fn u8() {
    test(0u8);
    test(u8::MAX);
}

#[test]
fn u16() {
    test(0u16);
    test(u16::MAX);
}

#[test]
fn u32() {
    test(0u32);
    test(u32::MAX);
}

#[test]
fn u64() {
    test(0u64);
    test(u32::MAX as u64 + 1);
}

#[test]
fn i128() {
    test(i64::MIN as i128);
    test(0i128);
    test(i64::MAX as i128 + 1);
}

#[test]
fn u128() {
    test(0u128);
    test(u32::MAX as u128 + 1);
}

#[test]
fn f32() {
    test(1.3f32);
    test(-1e10f32);
}

#[test]
fn f64() {
    test(1.3f64);
    test(-1e10f64);
}

#[test]
fn char() {
    test('a');
    test('\0');
}

#[test]
fn str() {
    test("hello world".to_string());
    test("".to_string());
}

#[test]
fn unit() {
    test(());
}

#[test]
fn none() {
    test(None::<i32>);
}

#[test]
fn some() {
    test(Some(0i32));
    test(Some("hi".to_string()));
}

#[derive(PartialEq, Debug)]
struct Foo(i32);

impl ser::Serialize for Foo {
    fn serialize<S>(&self, s: S) -> Result<S::Ok, S::Error>
    where
        S: ser::Serializer,
    {
        s.serialize_newtype_struct("Foo", &self.0)
    }
}

struct FooVisitor;

impl<'de> de::Visitor<'de> for FooVisitor {
    type Value = Foo;

    fn expecting(&self, fmt: &mut fmt::Formatter) -> fmt::Result {
        fmt.write_str("a Foo struct")
    }

    fn visit_newtype_struct<D>(self, d: D) -> Result<Foo, D::Error>
    where
        D: de::Deserializer<'de>,
    {
        Ok(Foo(de::Deserialize::deserialize(d)?))
    }
}

impl<'de> de::Deserialize<'de> for Foo {
    fn deserialize<D>(d: D) -> Result<Foo, D::Error>
    where
        D: de::Deserializer<'de>,
    {
        d.deserialize_newtype_struct("Foo", FooVisitor)
    }
}

#[test]
fn newtype_struct() {
    test(Foo(100));
}

#[test]
fn seq() {
    test(vec![0, 1, 2, 3]);
}

#[test]
fn map() {
    let mut map = HashMap::new();
    map.insert("hello".to_owned(), vec![1, 2]);
    map.insert("goodbye".to_owned(), vec![]);
    test(map);
}

#[test]
fn keyed_collection_scenario() {
    let read: Value = serde_json::from_str(r#"{"hello": [1, 2], "goodbye": []}"#).unwrap();
    let mut events = Vec::new();
    events_of(&read, &mut events);
    let (calls, fault) = Session::new().forward_all(events);
    assert_eq!(fault, None);
    assert_eq!(calls.iter().filter(|c| **c == Call::AppendKey).count(), 2);
    let written = serde_json::to_string(&value_of(&calls)).unwrap();
    let output: HashMap<String, Vec<i64>> = serde_json::from_str(&written).unwrap();
    assert_eq!(output.len(), 2);
    assert_eq!(output["hello"], vec![1, 2]);
    assert_eq!(output["goodbye"], Vec::<i64>::new());
}
