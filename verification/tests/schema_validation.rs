use nametag::config;
use nametag::error::Error;
use nametag::schema::Schema;

fn schema_with_tag(tag: &str) -> config::Schema {
    let categories = vec![config::Category {
        name: "Animals".to_string(),
        rtype: config::Requirement::AtLeast,
        rvalue: 0,
        values: vec![tag.to_string()],
    }];
    config::Schema {
        delim: "-".to_string(),
        categories,
    }
}

#[test]
fn disallow_empty_tags() {
    let schema = config::Schema {
        delim: "-".to_string(),
        categories: vec![config::Category {
            name: "Animals".to_string(),
            rtype: config::Requirement::AtMost,
            rvalue: 2,
            values: vec![],
        }],
    };

    match Schema::from_config(schema) {
        Err(Error::CategoryWithNoTags { category_name }) => {
            assert_eq!(category_name, "Animals")
        }
        Err(e) => panic!("{e:?}"),
        Ok(x) => panic!("{x:?}"),
    }
}

#[test]
fn disallow_empty_string_tag() {
    match Schema::from_config(schema_with_tag("")) {
        Err(Error::EmptyStringNotValidTag) => (),
        Err(e) => panic!("{e:?}"),
        Ok(x) => panic!("{x:?}"),
    }
}

#[test]
fn disallow_null_tag() {
    match Schema::from_config(schema_with_tag("\0")) {
        Err(Error::InvalidCharacterInTag(c)) => assert_eq!(c, '\0'),
        Err(e) => panic!("{e:?}"),
        Ok(x) => panic!("{x:?}"),
    }
}

#[test]
fn disallow_empty_string_delim() {
    let mut schema = schema_with_tag("cat");
    schema.delim = "".into();
    match Schema::from_config(schema) {
        Err(Error::EmptyDelimiter) => (),
        Err(e) => panic!("{e:?}"),
        Ok(x) => panic!("{x:?}"),
    }
}

#[test]
fn disallow_null_delim() {
    let mut schema = schema_with_tag("cat");
    schema.delim = "\0".into();
    match Schema::from_config(schema) {
        Err(Error::InvalidCharacterInDelim(c)) => assert_eq!(c, '\0'),
        Err(e) => panic!("{e:?}"),
        Ok(x) => panic!("{x:?}"),
    }
}

#[test]
fn no_tags_can_contain_delimiter() {
    let mut schema = schema_with_tag("super-cat");
    schema.delim = "-".into();
    match Schema::from_config(schema) {
        Err(Error::DelimiterFoundInTag { tag, .. }) => assert_eq!(tag, "super-cat"),
        Err(e) => panic!("{e:?}"),
        Ok(x) => panic!("{x:?}"),
    }
}

#[test]
fn all_tags_must_be_unique() {
    let mut schema = schema_with_tag("cat");
    schema.categories.push(config::Category {
        name: "People".to_string(),
        rtype: config::Requirement::AtLeast,
        rvalue: 0,
        values: vec!["chris".to_string(), "cat".to_string(), "nathan".to_string()],
    });

    match Schema::from_config(schema) {
        Err(Error::TagsMustBeUnique {
            category_name,
            duplicated_tag,
        }) => {
            assert_eq!(category_name, "People");
            assert_eq!(duplicated_tag, "cat");
        }
        Err(e) => panic!("{e:?}"),
        Ok(x) => panic!("{x:?}"),
    }
}

#[test]
fn duplicate_within_one_category_rejected() {
    let mut schema = schema_with_tag("cat");
    schema.categories[0].values.push("cat".to_string());
    match Schema::from_config(schema) {
        Err(Error::TagsMustBeUnique {
            category_name,
            duplicated_tag,
        }) => {
            assert_eq!(category_name, "Animals");
            assert_eq!(duplicated_tag, "cat");
        }
        Err(e) => panic!("{e:?}"),
        Ok(x) => panic!("{x:?}"),
    }
}

#[test]
fn accessors_reflect_the_configuration() {
    let mut cfg = schema_with_tag("cat");
    cfg.categories[0].rtype = config::Requirement::Exactly;
    cfg.categories[0].rvalue = 1;
    let schema = Schema::from_config(cfg).unwrap();
    assert_eq!(schema.delim(), "-");
    let cats = schema.categories();
    assert_eq!(cats.len(), 1);
    assert_eq!(cats[0].name(), "Animals");
    assert_eq!(cats[0].req(), nametag::schema::Requirement::Exactly(1));
    assert_eq!(cats[0].values(), &vec!["cat".to_string()]);
}
