use app_meta::KeyPattern;
use regex::Regex;

/// The template as an anchored regular expression: literal text escaped, each
/// `{}` a run of ASCII letters and digits.
fn expression_of(template: &str) -> Regex {
    let parts: Vec<String> = template.split("{}").map(regex::escape).collect();
    let body = parts.join("[a-zA-Z0-9]+");
    Regex::new(&format!(r"\A(?:{})\z", body)).unwrap()
}

fn words(alphabet: &[char], longest: usize) -> Vec<String> {
    let mut all = vec![String::new()];
    let mut last = vec![String::new()];
    for _ in 0..longest {
        let mut next = Vec::new();
        for w in &last {
            for c in alphabet {
                let mut longer = w.clone();
                longer.push(*c);
                next.push(longer);
            }
        }
        all.extend(next.iter().cloned());
        last = next;
    }
    all
}

#[test]
fn agrees_with_an_anchored_regular_expression() {
    let templates = words(&['a', '_', '{', '}', '.'], 4);
    let keys = words(&['a', 'b', '_', '{', '.'], 4);
    for template in &templates {
        let pattern = KeyPattern::new(template.clone());
        let expression = expression_of(template);
        for key in &keys {
            assert_eq!(
                pattern.match_key(key),
                expression.is_match(key),
                "template {:?}, key {:?}",
                template,
                key
            );
        }
    }
}

#[test]
fn agrees_with_an_anchored_regular_expression_on_longer_runs() {
    let templates = ["{}a{}", "{}{}", "x{}y{}z", "{}_{}_{}", "a{}a{}a", "{}ab", "ab{}", "{}a{}b{}"];
    let keys = words(&['a', 'b', '_'], 7);
    for template in templates {
        let pattern = KeyPattern::new(template.to_owned());
        let expression = expression_of(template);
        for key in &keys {
            assert_eq!(
                pattern.match_key(key),
                expression.is_match(key),
                "template {:?}, key {:?}",
                template,
                key
            );
        }
    }
}
