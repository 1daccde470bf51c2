//! Repositories that git made, and what git says of them.

use tig::bundle::Bundle;
use tig::history::Walk;
use tig::object::{compute_oid, parse_tag, Kind, TreeIter};
use tig::oid::Oid;

/// `git bundle create --all` of a repository with a merge and an annotated tag, in hexadecimal.
const BUNDLE: &str = "\
    23207632206769742062756e646c650a63376365656231373231386138326265376134663532653864643434\
    62626134383335366339313220726566732f68656164732f6d61696e0a303039626431336533336439663637\
    3463373333363333333736643031653336653337356663326320726566732f68656164732f746f7069630a66\
    3562383061633338323962623836356130333033656566626263653963313532343666373739612072656673\
    2f746167732f76310a6337636565623137323138613832626537613466353265386464343462626134383335\
    366339313220484541440a0a5041434b00000002000000219610789c954b5b6ac33010fcd729f45f28fbb057\
    16949043f402d2ee2a09d4b55154e8f16b177a800ecc83616674f7986ad5496a9ef354f322ad995145049462\
    04c66494dd9716f6d2fd7344422a820ca489102bc93c65c8a734abac8b2b702d05fef600b91ab2335b6e9226\
    4dccc2cc490cd0599cd3dc943494af71df7a7cf7e7f01edfc6af5ffdbbacfb87bfeab65e2226388007e3cb99\
    c2d1ae8f71eeff750babf79bc7b1ed0f0d3f07664d04c008789c1dca410ac2301085e17d4e317b4132313511\
    a478082f30933e8bd2d0d20ea2b737f56dbeb7f8677da118955400e514384b0e8a24f1d105e461885155623e\
    75e772e1e0ecbb80ca5cebd39cc9486fde19b1d21d9b35aef6f7868fd465c2b1b53d71f26dccded3617fcead\
    98201bdc0f2a702765970d789c958b5d0a02310c84df7b8abe0bd274639305110fe105d26cea2eb83fd40a1e\
    5fd71b382ff3317cd3aa99976e40ea24e6cc10514933326048203df48385a4265c28bb4daa2dcdcba0c68948\
    3b44e21c0b1482a27662cc598bc604087d6027af36aed5dfecd9acfa73fbf5d5de326f0f3bea3a5f3c50d8c3\
    21f8c30eeebbce53dbfdbf6eaeaddba45e4759eee63e528b40fee2058015789cbbce788d51b7a4283555c1d4\
    c83c25cd38d9d0ccdcc0c4c83c39cd28cd30d5c22cd5d2c2c2d0d0d2c2c4d8d838c5d2d4d8346da26e34a3e5\
    c44e33714b0303056d0320e0e2ca4dcccc5348ce48cc4b4fe50200bff21670930d789c954b5b0ac23010fccf\
    29f65f90cde6d5828887f002d9cd06056b4b1ac1e3db8a17703e668679f4a60a9162a02a1c28551e69208d65\
    882365aee872f1120bf9826296dcf4d921384e96bdd4b0b5e8bc88cd4eb4f890502ca32624c7a426bffa6d6e\
    70d5b56b8353ffea45df795a1e7a94793a834db8636338ecc66ce974effbfeafdbef07c97c004e603f42930d\
    789c958b510a02310c44ff7b8afc0b92366db605110fe105d23645c175975ac1e3eb8a17707e6678cc1b5d15\
    928ab2708a8daa4b6c0523c5e0a56545cb9a29660c25aa59a5eb7d40a6ea154bae647d44d7d472251657d185\
    964a68de7b6ad364e4392e4b87b33e8676388c6f9ff425f37ad37d59e623d809b73022ecb6613e74be8eedff\
    97f6f380cd1b3e203f07930d789c958b510ac2301044ff738afd17246d926d02221ec20b6c361314ac2d3182\
    c7d78a17707e6678cceb0da0e2397bcd2579aeec120365b49a72700e25b256a8a8cf30ab34dc3b05997c1c73\
    885c84431de046afd5a62c3241e044123bd468e4d92f4ba3331e1d8d0efddb27bc645e6fd8eb321f6998ec96\
    602dedb6613e74bef6edff97f6f328983729e54093930d789c958c4b0a02311044f73945ef05c9aff301110f\
    e10592ee0e0a8e336422787c67c40b589b2a8a7a35ba08504aa1c4168998736497a9e6e6526169ec49acad51\
    6be3b35a4a97e700239862e48654b51353b2f5189a64cf58199192b816d059555ee33677b8ca3aa4c3697cfd\
    22ef322d0f39d23c9dc16cd79bbcd670d883dadae93ef6fd5fd88f03af3ebe663fb4930d789c958b510a0231\
    0c44ff7b8afc0bd2344d9305110fe1054a9ba2e0ba4bade0f175c50b383f333ce68d6e068ce8b9b468dc822a\
    47f2665234979a1a71ad2dfb98a44d6ecdddee03044528592c8c6caa66950843c1a8d3c459828654bd5074f9\
    392e4b87b33d8675388c6f9fec95e7f566fbb2cc4740f15bc87bd86dc37de87c1ddbff2fede701b937a5c23d\
    fb930d789c958b4b0a02311044f73945f682249d9e7c40c4437881a45341c1718618c1e3eb8817b036553cea\
    8d0e68010527c9f8640b91c40a6e05368033a3a6547c8390096acd1df7a1d31423578647a991a5454762a7e0\
    5838656e024fded862547e8ecbd2f5198f81ae0fe3db27bcf2bcdeb097653e6a1bcc163246efb6a13e74be8e\
    edff97f6f334a93769bb3f3d930d789c958b410ac2301444f739c5df0b929fe427298878082f90a41314ac2d\
    69048f6f2b5ec0d9ccf078d31b40869147a9c195e8ede0ac08c6cc76a3351761780e0983b76a490dcf4e08d9\
    24d12e23ebcd8f2e32c4d45a93a92e8e46fb22455c54e9d56f73a32bd68e46a7feed0bde695a1e3896793a13\
    07bd87b5a6c33ed446a77bdffdbf6ebf1fb1fa00380e3efa930a789c2b294a4d553034484e4a354b33333137\
    3234354db334b5483430484b31333432b7b0344e324b4a36b534b24c35e74a2c2dc9c82f5208492d2e492d52\
    b02901d30ea91589b90539a97ac9f9b9760a86e60650a0a00d22b980a2b9992520f5246983ea5330e00200c2\
    e4309da306789c3334303033315148d42ba92861981476f193108bfbf542e76dffcb94bc5bf29e1b6f308428\
    48022bf8f6b3c5ebfc5787d57bf6576aab7905f5cf981dcd0e55900c56b0d4e345c5d7a46597cfbf2888e2b5\
    3931e5789bae17008ce6291da204789c3334303033315148d42ba92861981476f193108bfbf542e76dffcb94\
    bc5bf29e1b6f30842848062b58eaf1a2e26bd2b2cbe75f1444f1da9c9872bc4dd70b00421d1b6d648028789c\
    4b769ae0040003b80178a102789c3334303033315148d42ba92861981476f193108bfbf542e76dffcb94bc5b\
    f29e1b6f0000bcf00d26a102789c3334303033315148d42ba92861e0e52d8fe8702beb3c18221a12bc7ad7af\
    09eaad4f01a54b0c46a102789c3334303033315148d42ba92861b87aebed32af1addbb66efee7f3c96d3ad2a\
    f640e43f00dac60f30a102789c3334303033315148d42ba92861b85e77aabfd76dc7f4b981adb35cb445cf73\
    f7684b0200c5880c4aa102789c3334303033315148d42ba92861b0b87ecefa4ecf8bc5fb93be157231ce93bb\
    de69f00000ccc00e09a102789c3334303033315148d42ba92861d87ae7db1d976386eb8ff988fcbcbb6dc38e\
    b6ca47e600de7a0fbea102789c3334303033315148d42ba92861b058dffbe166727c7fc3d390477a572f57ff\
    f8a4ab0600d16e0ef6a102789c3334303033315148d42ba92861b82a19c822faf3db1adeb0af8b18a7cf145e\
    f0a67d3b00b6c70d3ab017789ccbc9cc4b5530b0523030343236313533b7b054484c4a4e494d4bcfc8cccace\
    c9cdcb2f282c2a2e292d2bafa8ace2ca01a9362449b51149aa8d49526d42926a5392549b91a4da9c58d5001b\
    037d5d6752789cfbc0748869831323000d0a02aa6763789cfbc0348569830823000bc8024e6674789cfbc0f4\
    8c71c233000b510350668004789cfbc0b48371c20e000a6b02f4668015789cfbc0d4c538a10b000985029865\
    8026789cfbc01433210600074d023b3b789c2bc92fc84c5648cbcc49e5020019c403ea3a789ccb4dcccc5348\
    cbcc49e5020014790370be02789ccbc9cc4b5530b0523030343236313533b7b054484c4a4e494d4bcfc8ccca\
    cec9cdcb2f282c2a2e292d2bafa8ace20200484f0fa9541d596a4b52f87a38ddddb2e31e599ca7e1e54e";

/// `git bundle list-heads`.
const HEADS: &[&str] = &[
    "c7ceeb17218a82be7a4f52e8dd44bba48356c912 refs/heads/main",
    "009bd13e33d9f674c733633376d01e36e375fc2c refs/heads/topic",
    "f5b80ac3829bb865a0303eefbbce9c15246f779a refs/tags/v1",
    "c7ceeb17218a82be7a4f52e8dd44bba48356c912 HEAD",
];

/// `git rev-list --date-order --all`.
const ALL: &[&str] = &[
    "c7ceeb17218a82be7a4f52e8dd44bba48356c912",
    "212a61302c7211b26549095490fdb3c8ec03baa0",
    "009bd13e33d9f674c733633376d01e36e375fc2c",
    "adce8677c34478b2f1f71fce584bbcfc26141908",
    "53b71b4cf53ad034cc1a3ced4570c1b0e7023b2e",
    "b3d4e0cbd314802fe16d36a2d025f9c5f4443f77",
    "5a7482b586da65f1e324cf09baa7eae3aa963ef8",
    "1e5877df5cb03e1a92456fe94d5bd55c8e3f6532",
    "717736e4c515e88eed3312c148995a72826d0734",
    "95884d4e6ebd84cf832c15734c49a4fce62601b0",
    "e7b2a504beb03948481e52fffa2f48d206c5c548",
];

/// `git rev-list --date-order refs/heads/topic`.
const TOPIC: &[&str] = &[
    "009bd13e33d9f674c733633376d01e36e375fc2c",
    "adce8677c34478b2f1f71fce584bbcfc26141908",
    "53b71b4cf53ad034cc1a3ced4570c1b0e7023b2e",
    "b3d4e0cbd314802fe16d36a2d025f9c5f4443f77",
    "5a7482b586da65f1e324cf09baa7eae3aa963ef8",
    "1e5877df5cb03e1a92456fe94d5bd55c8e3f6532",
    "717736e4c515e88eed3312c148995a72826d0734",
    "95884d4e6ebd84cf832c15734c49a4fce62601b0",
    "e7b2a504beb03948481e52fffa2f48d206c5c548",
];

/// `git rev-list --objects --all`, with the kind and the size of each object.
const OBJECTS: &[(&str, &str, usize)] = &[
    ("c7ceeb17218a82be7a4f52e8dd44bba48356c912", "commit", 262),
    ("212a61302c7211b26549095490fdb3c8ec03baa0", "commit", 214),
    ("009bd13e33d9f674c733633376d01e36e375fc2c", "commit", 215),
    ("adce8677c34478b2f1f71fce584bbcfc26141908", "commit", 211),
    ("53b71b4cf53ad034cc1a3ced4570c1b0e7023b2e", "commit", 211),
    ("b3d4e0cbd314802fe16d36a2d025f9c5f4443f77", "commit", 211),
    ("5a7482b586da65f1e324cf09baa7eae3aa963ef8", "commit", 211),
    ("1e5877df5cb03e1a92456fe94d5bd55c8e3f6532", "commit", 211),
    ("717736e4c515e88eed3312c148995a72826d0734", "commit", 211),
    ("95884d4e6ebd84cf832c15734c49a4fce62601b0", "commit", 211),
    ("e7b2a504beb03948481e52fffa2f48d206c5c548", "commit", 163),
    ("f5b80ac3829bb865a0303eefbbce9c15246f779a", "tag", 128),
    ("7bbc46b9594b986ffdd2b11016ad20d32d29ee8f", "tree", 99),
    ("9256d1f2120447d77143b6ff76224b846ee733b0", "blob", 368),
    ("f6f9844acff540abbcbf792b264a528f989b5b07", "blob", 11),
    ("a548e878f562a6d3cfe8705a0d3cc894c7862d4a", "blob", 10),
    ("527df3c1670427cf2f1e86e98811984333d9535f", "tree", 66),
    ("a3d473a2bb8124c7cb4814061a919de06cea8f7b", "tree", 66),
    ("62652fcb527fb9282e6d8692abf03ad4c6d24d0c", "tree", 33),
    ("9eae6a698f3d2961a083854afbe016eb38b05c8e", "tree", 33),
    ("0d0d775888467689c154155453abbafa902785e5", "blob", 322),
    ("d46b4cbd946f6396eed20c9b533ed86cfecac4be", "tree", 33),
    ("d5daeda64a7c2ddd36eedff1c66c8b2516e014ff", "blob", 276),
    ("c886a7f7ccdd97d39cb9f38adefd4ce22b700149", "tree", 33),
    ("d77eca8f8d46b8979d51859a442b15cf0b8c2b19", "blob", 230),
    ("51105cf4e5f2885430ee7c8acd6f35ddfa0467f9", "tree", 33),
    ("38d7ce3bdc8ce8a3bf62f6710a019e1ed78930e0", "blob", 184),
    ("ce273c90691b22c8de4fbe17e4a4ed99b6fec207", "tree", 33),
    ("b5dcf6dc44c631afc64c14f9ddb6b0b88679e237", "blob", 138),
    ("21ebd5f74c86394355edb131ebfbc51e617ae963", "tree", 33),
    ("38af8df0d9635f8f80e554e22ed5d37bf8f22d26", "blob", 92),
    ("10cbe6f6472155f958a00fd6127893b6bc5929e7", "tree", 33),
    ("d519510415f9f6ac0d56f5a201979913a0ec87b7", "blob", 46),
];

/// A bundle of one commit with one file.
const SINGLE: &str = "\
    23207632206769742062756e646c650a63336364663463383636363536376264376532353563623030663262\
    36333936643335666330633020726566732f68656164732f6d61696e0a633363646634633836363635363762\
    6437653235356362303066326236333936643335666330633020484541440a0a5041434b0000000200000003\
    9f09789c2b294a4d55303031b73430303631314d3349354d344d4b3332353633483633304f4e34b74c4b4b35\
    01c24443aec4d2928cfc228590d4e292d422059b1230ed905a91985b9093aa979c9f6ba760686e00050ada20\
    920b289a9b5902524f9236aefcbc9c4a2e001b692fd7a102789c33343030333151a8d02ba9286188a87eb6e5\
    f04ffbc9473a0f084aef0a9d2652a5761a00ce840dae32789cabe0020000fc0083df4c4be42462f228283472\
    abd176c09b7df0763f";

fn bytes(hex: &str) -> Vec<u8> {
    let digit = |c: u8| (c as char).to_digit(16).unwrap() as u8;
    hex.as_bytes()
        .chunks(2)
        .map(|pair| digit(pair[0]) * 16 + digit(pair[1]))
        .collect()
}

fn walk_from(bundle: &Bundle<'_>, tips: &[Oid]) -> Vec<String> {
    let mut walk = Walk::new(&bundle.pack);
    for tip in tips {
        walk.push(*tip).unwrap();
    }
    let mut out = Vec::new();
    while let Some(item) = walk.next() {
        out.push(item.ok().unwrap().oid.to_hex());
    }
    out
}

#[test]
fn refs_match_git_bundle_list_heads() {
    let data = bytes(BUNDLE);
    let bundle = Bundle::parse(&data).ok().unwrap();
    let mut ours: Vec<String> = bundle
        .refs
        .iter()
        .map(|(name, oid)| format!("{} {}", oid.to_hex(), String::from_utf8_lossy(name)))
        .collect();
    let mut expected: Vec<String> = HEADS.iter().map(|s| s.to_string()).collect();
    ours.sort();
    expected.sort();
    assert_eq!(ours, expected);
}

#[test]
fn walk_matches_git_rev_list_date_order() {
    let data = bytes(BUNDLE);
    let bundle = Bundle::parse(&data).ok().unwrap();

    let tips: Vec<Oid> = bundle.refs.iter().map(|(_, oid)| *oid).collect();
    assert_eq!(walk_from(&bundle, &tips), ALL);
    // Start points in another order lead to the same list.
    let back: Vec<Oid> = tips.iter().rev().copied().collect();
    assert_eq!(walk_from(&bundle, &back), ALL);

    for (refname, expected) in [
        ("refs/heads/main", ALL),
        ("refs/heads/topic", TOPIC),
        ("refs/tags/v1", ALL),
    ] {
        let oid = bundle.find_ref(refname.as_bytes()).unwrap();
        assert_eq!(walk_from(&bundle, &[oid]), expected, "refname={refname}");
    }
}

#[test]
fn objects_match_git_cat_file() {
    let data = bytes(BUNDLE);
    let bundle = Bundle::parse(&data).ok().unwrap();
    assert!(OBJECTS.len() > 10);
    for (hex, kind_name, size) in OBJECTS {
        let oid = Oid::from_hex(hex.as_bytes()).unwrap();
        let (kind, body) = bundle
            .pack
            .read_object(&oid)
            .unwrap()
            .unwrap_or_else(|| panic!("not in the pack: {hex}"));
        assert_eq!(kind.as_str(), *kind_name, "oid={hex}");
        assert_eq!(body.len(), *size, "oid={hex}");
        assert_eq!(compute_oid(kind, &body), oid);
    }
    let mut text = Vec::new();
    for i in 0..8 {
        text.extend_from_slice(
            format!("line {i}: 0123456789 abcdefghijklmnopqrstuvwxyz\n").as_bytes(),
        );
        let oid = compute_oid(Kind::Blob, &text);
        let object = bundle.pack.read_object(&oid).unwrap();
        assert_eq!(object, Some((Kind::Blob, text.clone())));
    }
}

#[test]
fn annotated_tag_peels_to_commit() {
    let data = bytes(BUNDLE);
    let bundle = Bundle::parse(&data).ok().unwrap();
    let tag_oid = bundle.find_ref(b"refs/tags/v1").unwrap();
    let (kind, body) = bundle.pack.read_object(&tag_oid).unwrap().unwrap();
    assert_eq!(kind, Kind::Tag);
    let tag = parse_tag(&body).unwrap();
    assert_eq!(tag.name, b"v1");
    assert_eq!(tag.object.to_hex(), "c7ceeb17218a82be7a4f52e8dd44bba48356c912");
}

#[test]
fn tree_lookup_reads_blob_content() {
    let data = bytes(BUNDLE);
    let bundle = Bundle::parse(&data).ok().unwrap();
    let head = bundle.find_ref(b"HEAD").unwrap();
    let mut walk = Walk::new(&bundle.pack);
    walk.push(head).unwrap();
    let newest = walk.next().unwrap().ok().unwrap();
    let commit = newest.commit().unwrap();

    let (kind, tree_body) = bundle.pack.read_object(&commit.tree).unwrap().unwrap();
    assert_eq!(kind, Kind::Tree);
    let mut iter = TreeIter::new(&tree_body);
    let mut found = None;
    while let Some(entry) = iter.next() {
        let entry = entry.unwrap();
        if entry.name == b"a.txt" {
            found = Some(entry.oid);
        }
    }
    let (kind, blob) = bundle
        .pack
        .read_object(&found.expect("a.txt is not in the tree"))
        .unwrap()
        .unwrap();
    assert_eq!(kind, Kind::Blob);
    let mut expected = String::new();
    for i in 0..8 {
        expected.push_str(&format!("line {i}: 0123456789 abcdefghijklmnopqrstuvwxyz\n"));
    }
    assert_eq!(blob, expected.as_bytes());
}

#[test]
fn single_commit_bundle() {
    let data = bytes(SINGLE);
    let bundle = Bundle::parse(&data).ok().unwrap();
    assert_eq!(bundle.pack.len(), 3);
    assert!(bundle.prerequisites.is_empty());
    let tip = bundle.find_ref(b"refs/heads/main").unwrap();
    assert_eq!(walk_from(&bundle, &[tip]).len(), 1);
}
