//! Randomized agreement between the library and small models written with
//! std's own string, number and UTF-8 functions.

use std::collections::BTreeMap;

use rust_cloud_config_client::binding::{coerce_string, parse_property_path, PathSegment};
use rust_cloud_config_client::document::detect_format;
use rust_cloud_config_client::properties::parse;
use rust_cloud_config_client::{
    ConfigError, DocumentFormat, EnvironmentRequest, JsonNumber, JsonValue, ResourceRequest,
};

struct Rng(u64);

impl Rng {
    fn next(&mut self) -> u64 {
        let mut x = self.0;
        x ^= x << 13;
        x ^= x >> 7;
        x ^= x << 17;
        self.0 = x;
        x
    }

    fn below(&mut self, n: usize) -> usize {
        (self.next() % n as u64) as usize
    }

    fn text(&mut self, alphabet: &[&str], max_pieces: usize) -> String {
        let n = self.below(max_pieces + 1);
        (0..n).map(|_| alphabet[self.below(alphabet.len())]).collect()
    }
}

// ---------------------------------------------------------------------------
// Java properties
// ---------------------------------------------------------------------------

fn model_lines(input: &str) -> Vec<(usize, String)> {
    let mut out = Vec::new();
    let mut current: Option<(usize, String)> = None;
    for (index, raw) in input.lines().enumerate() {
        let line = raw.trim_end_matches('\r');
        let trimmed = line.trim_start();
        if current.is_none() && (trimmed.starts_with('#') || trimmed.starts_with('!')) {
            out.push((index + 1, line.to_string()));
            continue;
        }
        match current.as_mut() {
            Some((_, buffer)) => buffer.push_str(line.trim_start()),
            None => current = Some((index + 1, line.to_string())),
        }
        let slashes = line.chars().rev().take_while(|c| *c == '\\').count();
        if slashes % 2 == 1 {
            current.as_mut().unwrap().1.pop();
        } else {
            out.push(current.take().unwrap());
        }
    }
    out.extend(current);
    out
}

fn model_split(line: &str) -> (&str, &str) {
    let mut escaped = false;
    let mut found = None;
    for (i, c) in line.char_indices() {
        if escaped {
            escaped = false;
        } else if c == '\\' {
            escaped = true;
        } else if c == '=' || c == ':' || c.is_whitespace() {
            found = Some((i, c));
            break;
        }
    }
    let Some((i, c)) = found else {
        return (line, "");
    };
    let mut rest = &line[i + c.len_utf8()..];
    if c.is_whitespace() {
        rest = rest.trim_start();
        if rest.starts_with('=') || rest.starts_with(':') {
            rest = &rest[1..];
        }
    }
    (&line[..i], rest.trim_start())
}

fn model_unescape(s: &str) -> Result<String, String> {
    let mut out = String::new();
    let mut chars = s.chars();
    while let Some(c) = chars.next() {
        if c != '\\' {
            out.push(c);
            continue;
        }
        let Some(e) = chars.next() else {
            out.push('\\');
            break;
        };
        match e {
            't' => out.push('\t'),
            'r' => out.push('\r'),
            'n' => out.push('\n'),
            'f' => out.push('\u{c}'),
            'u' => {
                let code: String = chars.by_ref().take(4).collect();
                if code.len() != 4 {
                    return Err("expected four hexadecimal digits after \\u".to_string());
                }
                let value = u32::from_str_radix(&code, 16)
                    .map_err(|_| format!("invalid unicode escape \\u{code}"))?;
                let ch = char::from_u32(value)
                    .ok_or_else(|| format!("invalid unicode code point {code}"))?;
                out.push(ch);
            }
            other => out.push(other),
        }
    }
    Ok(out)
}

fn model_properties(input: &str) -> Result<BTreeMap<String, String>, String> {
    let mut map = BTreeMap::new();
    for (number, line) in model_lines(input) {
        let t = line.trim_start();
        if t.is_empty() || t.starts_with('#') || t.starts_with('!') {
            continue;
        }
        let (k, v) = model_split(t);
        let key = model_unescape(k).map_err(|m| format!("line {number}: {m}"))?;
        let value = model_unescape(v).map_err(|m| format!("line {number}: {m}"))?;
        map.insert(key, value);
    }
    Ok(map)
}

#[test]
fn properties_parser_agrees_with_model() {
    let alphabet = [
        "a", "b", "é", "=", ":", " ", "\t", "\u{3000}", "\\", "\\", "u", "0", "0", "4", "1", "D",
        "8", "F", "g", "+", "\n", "\n", "\r", "#", "!", "\u{20ac}",
    ];
    let mut rng = Rng(0x9E37_79B9_7F4A_7C15);
    for _ in 0..20000 {
        let text = rng.text(&alphabet, 24);
        let expected = model_properties(&text);
        match (parse(&text, "o"), expected) {
            (Ok(map), Ok(model)) => {
                let got: Vec<(String, String)> = map.into_entries();
                let want: Vec<(String, String)> = model.into_iter().collect();
                assert_eq!(got, want, "text {:?}", text);
            }
            (Err(ConfigError::Properties { origin, reason }), Err(model)) => {
                assert_eq!(origin, "o");
                assert_eq!(reason, model, "text {:?}", text);
            }
            (got, want) => panic!("text {:?}: library {:?}, model {:?}", text, got, want),
        }
    }
}

// ---------------------------------------------------------------------------
// Property paths
// ---------------------------------------------------------------------------

fn model_path(path: &str) -> Vec<PathSegment> {
    let chars: Vec<char> = path.chars().collect();
    let mut out = Vec::new();
    let mut buffer = String::new();
    let mut i = 0;
    while i < chars.len() {
        match chars[i] {
            '.' => {
                if !buffer.is_empty() {
                    out.push(PathSegment::Field(std::mem::take(&mut buffer)));
                }
                i += 1;
            }
            '[' => {
                if !buffer.is_empty() {
                    out.push(PathSegment::Field(std::mem::take(&mut buffer)));
                }
                i += 1;
                let start = i;
                while i < chars.len() && chars[i] != ']' {
                    i += 1;
                }
                let token: String = chars[start..i].iter().collect();
                let token = token.trim().trim_matches('"').trim_matches('\'');
                if let Ok(p) = token.parse::<usize>() {
                    out.push(PathSegment::Index(p));
                } else if !token.is_empty() {
                    out.push(PathSegment::Field(token.to_string()));
                }
                if i < chars.len() {
                    i += 1;
                }
            }
            c => {
                buffer.push(c);
                i += 1;
            }
        }
    }
    if !buffer.is_empty() {
        out.push(PathSegment::Field(buffer));
    }
    out
}

#[test]
fn property_paths_agree_with_model() {
    let alphabet = ["a", "b", ".", "[", "]", "0", "7", "+", "-", " ", "\"", "'", "é"];
    let mut rng = Rng(0x1234_5678_9ABC_DEF1);
    for _ in 0..20000 {
        let path = rng.text(&alphabet, 12);
        assert_eq!(parse_property_path(&path), model_path(&path), "path {:?}", path);
    }
}

// ---------------------------------------------------------------------------
// Scalar coercion
// ---------------------------------------------------------------------------

fn model_coerce(s: &str) -> JsonValue {
    if s.eq_ignore_ascii_case("true") {
        return JsonValue::Bool(true);
    }
    if s.eq_ignore_ascii_case("false") {
        return JsonValue::Bool(false);
    }
    let digits = s.strip_prefix('-').unwrap_or(s);
    let integer_like = !digits.is_empty()
        && digits.bytes().all(|b| b.is_ascii_digit())
        && !(digits.len() > 1 && digits.starts_with('0'));
    if integer_like {
        if let Ok(i) = s.parse::<i64>() {
            return JsonValue::Number(if i >= 0 {
                JsonNumber::PosInt(i as u64)
            } else {
                JsonNumber::NegInt(i)
            });
        }
        if let Ok(u) = s.parse::<u64>() {
            return JsonValue::Number(JsonNumber::PosInt(u));
        }
    }
    let float_like = s.contains('.') || s.contains('e') || s.contains('E');
    if float_like && s.parse::<f64>().map_or(false, |f| f.is_finite()) {
        return JsonValue::Number(JsonNumber::Float(s.to_string()));
    }
    JsonValue::String(s.to_string())
}

#[test]
fn scalar_coercion_agrees_with_std_number_parsing() {
    let alphabet = [
        "0", "1", "9", "0", "5", ".", ".", "e", "E", "+", "-", "-", "i", "n", "f", "a", "N",
        "t", "r", "u", "true", "FALSE", "x",
    ];
    let mut rng = Rng(0x0F0F_1234_AAAA_5555);
    for _ in 0..50000 {
        let s = rng.text(&alphabet, 8);
        assert_eq!(coerce_string(&s), model_coerce(&s), "text {:?}", s);
    }
    for s in ["18446744073709551615", "18446744073709551616", "-9223372036854775808", "-9223372036854775809", "1e400", "-1e400", "1e-400", "0e99999999999999999999", "-0"] {
        assert_eq!(coerce_string(s), model_coerce(s), "text {:?}", s);
    }
}

// ---------------------------------------------------------------------------
// Formats
// ---------------------------------------------------------------------------

fn model_from_path(path: &str) -> Option<DocumentFormat> {
    let (_, extension) = path.rsplit_once('.')?;
    match extension.to_ascii_lowercase().as_str() {
        "json" => Some(DocumentFormat::Json),
        "yaml" | "yml" => Some(DocumentFormat::Yaml),
        "toml" => Some(DocumentFormat::Toml),
        "properties" | "props" => Some(DocumentFormat::Properties),
        _ => None,
    }
}

fn model_from_content_type(ct: &str) -> Option<DocumentFormat> {
    let ct = ct.to_ascii_lowercase();
    if ct.contains("json") {
        Some(DocumentFormat::Json)
    } else if ct.contains("yaml") || ct.contains("yml") {
        Some(DocumentFormat::Yaml)
    } else if ct.contains("toml") {
        Some(DocumentFormat::Toml)
    } else if ct.contains("properties") {
        Some(DocumentFormat::Properties)
    } else if ct.contains("octet-stream") {
        Some(DocumentFormat::Binary)
    } else if ct.starts_with("text/") {
        Some(DocumentFormat::Text)
    } else {
        None
    }
}

fn model_detect(path: &str, ct: Option<&str>, bytes: &[u8]) -> DocumentFormat {
    if let Some(f) = model_from_path(path) {
        return f;
    }
    let utf8 = std::str::from_utf8(bytes).is_ok();
    if let Some(f) = ct.and_then(model_from_content_type) {
        if f != DocumentFormat::Binary || !utf8 {
            return f;
        }
    }
    if utf8 {
        DocumentFormat::Text
    } else {
        DocumentFormat::Binary
    }
}

#[test]
fn format_detection_agrees_with_model() {
    let paths = ["a", ".", "JSON", "json", "yml", "YaMl", "toml", "props", "properties", "/", "x"];
    let types = [
        "text/", "TEXT/", "json", "Yaml", "yml", "toml", "properties", "octet-stream", "OCTET-",
        "stream", "application/", ";", "x",
    ];
    let byte_pool: [&[u8]; 5] = [b"abc", &[0xff], &[0xc3, 0xa9], &[0xc3], b""];
    let mut rng = Rng(0xDEAD_BEEF_0BAD_F00D);
    for _ in 0..20000 {
        let path = rng.text(&paths, 4);
        let ct = rng.text(&types, 3);
        let mut bytes = Vec::new();
        for _ in 0..rng.below(3) {
            bytes.extend_from_slice(byte_pool[rng.below(byte_pool.len())]);
        }
        let content_type = if rng.below(4) == 0 { None } else { Some(ct.as_str()) };
        assert_eq!(DocumentFormat::from_path(&path), model_from_path(&path), "{:?}", path);
        assert_eq!(DocumentFormat::from_content_type(&ct), model_from_content_type(&ct), "{:?}", ct);
        assert_eq!(
            detect_format(&path, content_type, &bytes),
            model_detect(&path, content_type, &bytes),
            "{:?} {:?} {:?}",
            path,
            content_type,
            bytes
        );
    }
}

// ---------------------------------------------------------------------------
// Requests
// ---------------------------------------------------------------------------

#[test]
fn requests_agree_with_std_trimming() {
    let alphabet = ["a", "/", "\\", " ", "\t", "\u{a0}", "\u{2028}", "\u{200b}", "b"];
    let mut rng = Rng(0x5555_AAAA_1234_4321);
    for _ in 0..20000 {
        let application = rng.text(&alphabet, 4);
        let profiles: Vec<String> = (0..rng.below(4)).map(|_| rng.text(&alphabet, 3)).collect();
        let path = rng.text(&alphabet, 5);
        let borrowed: Vec<&str> = profiles.iter().map(String::as_str).collect();

        let kept: Vec<String> = profiles
            .iter()
            .map(|p| p.trim().to_string())
            .filter(|p| !p.is_empty())
            .collect();
        let normalized = path.replace('\\', "/").trim_matches('/').trim().to_string();

        match ResourceRequest::new(&application, &borrowed, &path) {
            Ok(request) => {
                assert!(!application.trim().is_empty() && !kept.is_empty() && !normalized.is_empty());
                assert_eq!(request.application(), application.trim());
                assert_eq!(request.profiles(), kept.as_slice());
                assert_eq!(request.path(), normalized);
                let expected: Vec<String> = normalized
                    .split('/')
                    .filter(|s| !s.is_empty())
                    .map(str::to_string)
                    .collect();
                assert_eq!(request.path_segments(), expected);
                assert_eq!(request.joined_profiles(), kept.join(","));
            }
            Err(ConfigError::EmptyApplication) => assert!(application.trim().is_empty()),
            Err(ConfigError::EmptyProfiles) => {
                assert!(!application.trim().is_empty() && kept.is_empty())
            }
            Err(ConfigError::EmptyResourcePath) => {
                assert!(!application.trim().is_empty() && !kept.is_empty() && normalized.is_empty())
            }
            Err(other) => panic!("unexpected {:?}", other),
        }

        let label = rng.text(&alphabet, 3);
        let request = EnvironmentRequest::new("app", &["p"]).unwrap().label(&label);
        let expected = if label.trim().is_empty() { None } else { Some(label.trim()) };
        assert_eq!(request.label_ref(), expected);
    }
}

const BOUND: &str = "179769313486231580793728971405303415079934132710037826936173778980444968292764750946649017977587207096330286416692887910946555547851940402630657488671505820681908902000708383676273854845817711531764475730270069855571366959622842914819860834936475292719074168444365510704342711559699508093042880177904174497792";

#[test]
fn finiteness_agrees_with_std_near_the_overflow_bound() {
    let mut rng = Rng(0x7777_1111_3333_9999);
    let mut cases: Vec<String> = vec![
        format!("{BOUND}.0"),
        format!("{}1.0", &BOUND[..BOUND.len() - 1]),
        format!("0.{BOUND}e309"),
        format!("{BOUND}0e-1"),
        "1.7976931348623157e308".to_string(),
        "1.7976931348623158e308".to_string(),
        "1.7976931348623159e308".to_string(),
        "179769313486231580793728971405303415079934132710037826936173778980444968292764750946649017977587207096330286416692887910946555547851940402630657488671505820681908902000708383676273854845817711531764475730270069855571366959622842914819860834936475292719074168444365510704342711559699508093042880177904174497791.9".to_string(),
    ];
    for _ in 0..5000 {
        let k = 1 + rng.below(BOUND.len());
        let mut digits: Vec<u8> = BOUND.as_bytes()[..k].to_vec();
        if rng.below(2) == 0 {
            let at = rng.below(k);
            digits[at] = b'0' + rng.below(10) as u8;
        }
        let digits = String::from_utf8(digits).unwrap();
        let shift = rng.below(5) as i64 - 2;
        let exponent = 309 - k as i64 + shift;
        let point = rng.below(k + 1);
        let lead = "0".repeat(rng.below(3));
        let text = format!("{lead}{}.{}e{exponent}", &digits[..point], &digits[point..]);
        let text = if rng.below(2) == 0 { format!("-{text}") } else { text };
        cases.push(text);
    }
    for s in cases {
        let finite = s.parse::<f64>().unwrap().is_finite();
        let expected = if finite {
            JsonValue::Number(JsonNumber::Float(s.clone()))
        } else {
            JsonValue::String(s.clone())
        };
        assert_eq!(coerce_string(&s), expected, "text {:?}", s);
    }
}
