use netlabs::products::{
    all_products, change_product, create_product, get_picture, get_product, remove_product, set_picture, Product,
    ProductPatch, Products,
};

fn product(name: &str, description: &str) -> Product {
    Product { name: name.to_string(), description: description.to_string() }
}

#[test]
fn ids_count_up_and_products_read_back() {
    let mut products = Products::default();
    let a = products.push(product("apple", "red"));
    let b = products.push(product("pear", "green"));
    assert_eq!(a.0, 0);
    assert_eq!(b.0, 1);
    let got = products.get(1).unwrap();
    assert_eq!(got.name, "pear");
    assert_eq!(got.description, "green");
    assert!(products.get(2).is_none());
}

#[test]
fn remove_and_put() {
    let mut products = Products::new();
    products.push(product("a", "1"));
    let removed = products.remove(0).unwrap();
    assert_eq!(removed.name, "a");
    assert!(products.get(0).is_none());
    assert!(products.remove(0).is_none());
    // ids are not reused
    assert_eq!(products.push(product("b", "2")).0, 1);
    assert!(products.put(0, product("c", "3")).is_none());
    assert!(products.get(0).is_none());
    let old = products.put(1, product("d", "4")).unwrap();
    assert_eq!(old.name, "b");
    assert_eq!(products.get(1).unwrap().name, "d");
}

#[test]
fn listing_holds_each_product_once() {
    let mut products = Products::new();
    for i in 0..5 {
        products.push(product(&format!("p{i}"), ""));
    }
    products.remove(2);
    let mut ids: Vec<u64> = products.products().iter().map(|e| e.0).collect();
    ids.sort();
    assert_eq!(ids, vec![0, 1, 3, 4]);
    let all = all_products(&products);
    for e in all.iter() {
        assert_eq!(e.1.name, format!("p{}", e.0));
    }
}

#[test]
fn pictures_round_trip() {
    let mut products = Products::new();
    assert!(products.get_picture(0).is_none());
    products.set_picture(0, vec![1, 2, 3]);
    assert_eq!(products.get_picture(0), Some(vec![1, 2, 3]));
}

#[test]
fn service_answers() {
    let mut products = Products::new();
    let created = create_product(&mut products, product("lamp", "bright"));
    assert_eq!(created.0, 0);
    assert_eq!(get_product(&products, 0).unwrap().1.name, "lamp");
    assert!(get_product(&products, 5).is_none());
    let changed = change_product(&mut products, 0, ProductPatch { name: None, description: Some("dim".to_string()) }).unwrap();
    assert_eq!(changed.1.name, "lamp");
    assert_eq!(changed.1.description, "dim");
    assert_eq!(get_product(&products, 0).unwrap().1.description, "dim");
    assert!(change_product(&mut products, 9, ProductPatch { name: None, description: None }).is_none());
    assert!(!set_picture(&mut products, 9, vec![7]));
    assert!(get_picture(&products, 9).is_none());
    assert!(set_picture(&mut products, 0, vec![7, 8]));
    assert_eq!(get_picture(&products, 0), Some(vec![7, 8]));
    let removed = remove_product(&mut products, 0).unwrap();
    assert_eq!(removed.1.description, "dim");
    assert!(remove_product(&mut products, 0).is_none());
}
