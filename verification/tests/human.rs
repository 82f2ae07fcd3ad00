use kva::de::{MapReader, ValueDeserializer};
use kva::ser::{string_data, Binary, Output, Serializer, Text};
use kva::{KvData, KvEntry};

#[derive(Debug, PartialEq)]
struct ReadableChecker;

#[derive(Debug, PartialEq)]
struct CheckerConfig {
    flag: ReadableChecker,
}

/// What the checker serializes as: text where the format is human readable, bytes where not.
fn checker_data(human: bool) -> KvData {
    if human {
        string_data("human".to_owned())
    } else {
        KvData::BinaryString(b"machine".to_vec())
    }
}

/// Reads the checker back as a self-describing value.
fn read_checker(de: &ValueDeserializer) -> ReadableChecker {
    assert!(!de.any_as_text());
    match de.data() {
        KvData::String(s) => assert_eq!(s, "human"),
        KvData::BinaryString(b) => assert_eq!(b.as_slice(), b"machine"),
        other => panic!("unexpected value {other:?}"),
    }
    ReadableChecker
}

fn decode_config(root: &KvEntry, human: bool) -> CheckerConfig {
    let mut reader = MapReader::new(root.data.as_compound().unwrap());
    let mut flag = None;
    while let Some(key) = reader.next_key() {
        let value = reader.next_value().unwrap();
        if key == "flag" {
            flag = Some(read_checker(&ValueDeserializer::new(value, human)));
        }
    }
    CheckerConfig { flag: flag.unwrap() }
}

fn encode_config<F: Output>() -> Result<F::Ok, kva::Error> {
    let mut map = Serializer::<F>::new("root").serialize_map();
    map.serialize_field("flag", checker_data(F::is_human_readable()));
    map.end(&Vec::new())
}

#[test]
fn text_true() {
    let config = CheckerConfig {
        flag: ReadableChecker,
    };

    let text = encode_config::<Text>().unwrap();
    assert_eq!(text, "\"root\"\n{\n\t\"flag\"\t\"human\"\n}\n");

    let root = kva::text::from_str(&text).unwrap();
    let decoded = decode_config(&root, true);
    assert_eq!(decoded, config);
}

#[test]
fn binary_false() {
    let config = CheckerConfig {
        flag: ReadableChecker,
    };

    let bytes = encode_config::<Binary>().unwrap();
    assert!(bytes.windows(7).any(|w| w == b"machine"));

    let root = kva::binary::from_slice(&bytes).unwrap();
    let decoded = decode_config(&root, false);
    assert_eq!(decoded, config);
}

#[test]
fn numbers_read_as_text_when_human() {
    let v = KvData::Int(30);
    assert!(ValueDeserializer::new(&v, true).any_as_text());
    assert!(!ValueDeserializer::new(&v, false).any_as_text());
    assert_eq!(ValueDeserializer::new(&v, true).string_value().unwrap(), "30");
}

use kva::de::{variant_value, SeqReader};
use kva::ser::{variant_data, CompoundSerializer};

/// An IPv4 address, written as serde writes `std::net::IpAddr`.
#[derive(Debug, PartialEq)]
struct IpAddr([u8; 4]);

impl IpAddr {
    fn parse(text: &str) -> IpAddr {
        let octets: Vec<u8> = text.split('.').map(|o| o.parse().unwrap()).collect();
        IpAddr([octets[0], octets[1], octets[2], octets[3]])
    }

    fn text(&self) -> String {
        let [a, b, c, d] = self.0;
        format!("{a}.{b}.{c}.{d}")
    }
}

#[derive(Debug, PartialEq)]
struct NetworkConfig {
    single_ip: IpAddr,
    nested_ips: Vec<IpAddr>,
}

/// An address as serde writes it: its text where the format is human readable, else the
/// `V4` variant holding its four octets as a tuple.
fn ip_data(ip: &IpAddr, human: bool) -> KvData {
    if human {
        return string_data(ip.text());
    }
    let mut octets = CompoundSerializer::<Binary>::new();
    for o in ip.0 {
        octets.serialize_element(KvData::Int(o.into()));
    }
    variant_data("V4", octets.end().unwrap())
}

fn read_ip(value: &KvData, human: bool) -> IpAddr {
    let de = ValueDeserializer::new(value, human);
    if human {
        return IpAddr::parse(&de.string_value().unwrap());
    }
    let (variant, content) = de.deserialize_enum().unwrap();
    assert_eq!(variant, "V4");
    let content = variant_value(content).unwrap();
    let mut reader = SeqReader::new(content.as_compound().unwrap());
    let mut octets = Vec::new();
    while let Some(o) = reader.next_element() {
        octets.push(ValueDeserializer::new(o, human).deserialize_u8().unwrap());
    }
    IpAddr([octets[0], octets[1], octets[2], octets[3]])
}

fn encode_network<F: Output>(config: &NetworkConfig) -> Result<F::Ok, kva::Error> {
    let human = F::is_human_readable();
    let mut map = Serializer::<F>::new("net").serialize_map();
    map.serialize_field("single_ip", ip_data(&config.single_ip, human));
    let mut seq = CompoundSerializer::<F>::new();
    for ip in &config.nested_ips {
        seq.serialize_element(ip_data(ip, human));
    }
    map.serialize_field("nested_ips", seq.end().unwrap());
    map.end(&Vec::new())
}

fn decode_network(root: &KvEntry, human: bool) -> NetworkConfig {
    let mut reader = MapReader::new(root.data.as_compound().unwrap());
    let mut single = None;
    let mut nested = Vec::new();
    while let Some(key) = reader.next_key() {
        let key = key.clone();
        let value = reader.next_value().unwrap();
        if key == "single_ip" {
            single = Some(read_ip(value, human));
        } else if key == "nested_ips" {
            let mut seq = SeqReader::new(value.as_compound().unwrap());
            while let Some(ip) = seq.next_element() {
                nested.push(read_ip(ip, human));
            }
        }
    }
    NetworkConfig { single_ip: single.unwrap(), nested_ips: nested }
}

#[test]
fn nested_types() {
    let config = NetworkConfig {
        single_ip: IpAddr::parse("127.0.0.1"),
        nested_ips: vec![IpAddr::parse("192.168.0.1"), IpAddr::parse("10.0.0.1")],
    };

    let bytes = encode_network::<Binary>(&config).unwrap();

    let string_repr = b"192.168.0.1";
    assert!(!bytes.windows(string_repr.len()).any(|w| w == string_repr));

    let root = kva::binary::from_slice(&bytes).unwrap();
    let decoded = decode_network(&root, false);
    assert_eq!(decoded, config);
}

#[test]
fn ipaddr_human() {
    let config = NetworkConfig {
        single_ip: IpAddr::parse("127.0.0.1"),
        nested_ips: vec![IpAddr::parse("192.168.0.1")],
    };

    let text = encode_network::<Text>(&config).unwrap();

    assert!(text.contains("\"127.0.0.1\""));
    assert!(text.contains("\"192.168.0.1\""));

    let root = kva::text::from_str(&text).unwrap();
    let decoded = decode_network(&root, true);
    assert_eq!(decoded, config);
}
